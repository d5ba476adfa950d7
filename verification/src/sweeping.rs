//! Sweeping on the heap model.

use vstd::prelude::*;

use crate::arena::{ArenaView, Span};
use crate::lemmas::{
    lemma_filter_members, lemma_filter_same, lemma_push_members, lemma_size_push,
};
use crate::marking::mark_run;
use crate::model::{size_of_all, HeapView, PartView};
use crate::node::{GcPartitionId, GcPtr, GcTriColor};
use crate::table::NodeView;
use crate::trace::GcTrace;

verus! {

impl<T> HeapView<T> {
    /// A sweep removes the node: it is white, no root and not held by a scope.
    pub open spec fn dead(self, p: GcPtr) -> bool {
        self.color(p) == GcTriColor::White && !self.pinned(p)
    }

    /// The partition has finished a marking cycle that was not swept yet.
    pub open spec fn sweepable(self, pid: GcPartitionId) -> bool {
        &&& self.has_part(pid)
        &&& self.parts[pid.0 as int].marking
        &&& self.parts[pid.0 as int].gray.len() == 0
    }

    /// The nodes of a partition that a sweep removes, in the order of the chain.
    pub open spec fn dead_nodes(self, pid: int) -> Seq<GcPtr> {
        self.parts[pid].nodes.filter(|p: GcPtr| self.dead(p))
    }

    /// The heap after the dead nodes were taken out of the chain of a partition and its marking
    /// cycle ended.
    pub open spec fn unlinked(self, pid: int) -> HeapView<T> {
        self.with_part(
            pid,
            PartView {
                marking: false,
                nodes: self.parts[pid].nodes.filter(|p: GcPtr| !self.dead(p)),
                ..self.parts[pid]
            },
        )
    }

    /// Dropping the payload of the node runs code.
    pub open spec fn needs_drop(self, p: GcPtr) -> bool {
        self.reg.infos[self.head(p).dtype as int].needs_drop
    }

    /// The heap after the payloads of the listed nodes were taken out, where dropping them runs
    /// code.
    pub open spec fn emptied(self, list: Seq<GcPtr>) -> HeapView<T> {
        HeapView {
            nodes: Map::new(
                |p: GcPtr| self.live(p),
                |p: GcPtr|
                    if list.contains(p) && self.needs_drop(p) {
                        NodeView { payload: None, ..self.nodes[p] }
                    } else {
                        self.nodes[p]
                    },
            ),
            ..self
        }
    }

    /// The payloads of the listed nodes that are still there and whose dropping runs code, in
    /// order.
    pub open spec fn payloads(self, list: Seq<GcPtr>) -> Seq<T>
        decreases list.len(),
    {
        if list.len() == 0 {
            Seq::empty()
        } else {
            let rest = self.payloads(list.drop_last());
            match self.nodes[list.last()].payload {
                Some(t) => if self.needs_drop(list.last()) {
                    rest.push(t)
                } else {
                    rest
                },
                None => rest,
            }
        }
    }

    /// The listed nodes with one of the first `n` drop passes: pass by pass, each pass in order.
    pub open spec fn order_upto(self, list: Seq<GcPtr>, n: int) -> Seq<GcPtr>
        decreases n,
    {
        if n <= 0 {
            Seq::empty()
        } else {
            self.order_upto(list, n - 1) + list.filter(
                |p: GcPtr| self.drop_pass(p) == self.reg.passes[n - 1],
            )
        }
    }

    /// The listed nodes in the order in which they are disposed of: by drop pass, and in order
    /// within a pass.
    pub open spec fn drop_order(self, list: Seq<GcPtr>) -> Seq<GcPtr> {
        self.order_upto(list, self.reg.passes.len() as int)
    }

    /// The arena and the holes after the nodes of `gone` were given back to it, in order.
    pub open spec fn collected(self, arena: ArenaView, gone: Seq<GcPtr>) -> (ArenaView, Seq<Span>)
        decreases gone.len(),
    {
        if gone.len() == 0 {
            (arena, Seq::empty())
        } else {
            let (a, holes) = self.collected(arena, gone.drop_last());
            match self.nodes[gone.last()].offset {
                Some(o) => (
                    a.after_collect(o as int, self.size(gone.last())),
                    a.holes_after(holes, o as int, self.size(gone.last())),
                ),
                None => (a, holes),
            }
        }
    }

    /// The heap while a sweep is under way: the nodes of `gone` are disposed of and given back to
    /// the arena.
    pub open spec fn sweep_mid(self, pid: int, gone: Seq<GcPtr>) -> HeapView<T> {
        let d = self.disposed(pid, gone);
        match self.parts[pid].arena {
            Some(a) => d.with_part(
                pid,
                PartView { arena: Some(self.collected(a, gone).0), ..d.parts[pid] },
            ),
            None => d,
        }
    }

    /// The heap after a sweep that disposed of the nodes of `gone`.
    pub open spec fn swept(self, pid: int, gone: Seq<GcPtr>) -> HeapView<T> {
        let m = self.sweep_mid(pid, gone);
        match self.parts[pid].arena {
            Some(a) => m.with_part(
                pid,
                PartView {
                    arena: Some(
                        self.collected(a, gone).0.after_sweep(self.collected(a, gone).1),
                    ),
                    ..m.parts[pid]
                },
            ),
            None => m,
        }
    }

    /// The heap after a finished marking cycle of a partition was swept.
    pub open spec fn sweep_done(self, pid: int) -> HeapView<T> {
        self.unlinked(pid).swept(pid, self.drop_order(self.dead_nodes(pid)))
    }

    /// Bytes of the nodes that a sweep of a partition removes.
    pub open spec fn dead_bytes(self, pid: int) -> int {
        size_of_all(self.nodes, self.reg.infos, self.drop_order(self.dead_nodes(pid)))
    }

    /// Number of nodes that are not black.
    pub open spec fn nonblack(self) -> nat {
        self.nodes.dom().filter(|p: GcPtr| self.color(p) != GcTriColor::Black).len()
    }
}

/// The heap after marking was run to its end in a partition.
pub open spec fn fully_marked<T: GcTrace>(v: HeapView<T>, pid: int) -> HeapView<T> {
    mark_run(v, pid, v.nonblack()).0
}

/// The members of `order_upto`: the listed nodes with one of the first passes, each once.
pub proof fn lemma_order_members<T>(v: HeapView<T>, list: Seq<GcPtr>, n: int)
    requires
        v.reg.wf(),
        0 <= n <= v.reg.passes.len(),
        list.no_duplicates(),
    ensures
        forall|p: GcPtr| #[trigger]
            v.order_upto(list, n).contains(p) <==> list.contains(p) && v.reg.passes.take(
                n,
            ).contains(v.drop_pass(p)),
        v.order_upto(list, n).no_duplicates(),
    decreases n,
{
    let passes = v.reg.passes;
    if n > 0 {
        lemma_order_members(v, list, n - 1);
        let before = v.order_upto(list, n - 1);
        let pred = |p: GcPtr| v.drop_pass(p) == passes[n - 1];
        let now = list.filter(pred);
        lemma_filter_members(list, pred);
        let all = v.order_upto(list, n);
        assert(passes.take(n) =~= passes.take(n - 1).push(passes[n - 1]));
        lemma_push_members(passes.take(n - 1), passes[n - 1]);
        assert forall|p: GcPtr| #[trigger] all.contains(p) <==> list.contains(p) && passes.take(
            n,
        ).contains(v.drop_pass(p)) by {
            if all.contains(p) {
                let k = choose|k: int| 0 <= k < all.len() && all[k] == p;
                if k < before.len() {
                    assert(before[k] == p);
                } else {
                    assert(now[k - before.len()] == p);
                }
                assert(before.contains(p) || now.contains(p));
            }
            if before.contains(p) {
                let k = choose|k: int| 0 <= k < before.len() && before[k] == p;
                assert(all[k] == p);
            }
            if now.contains(p) {
                let k = choose|k: int| 0 <= k < now.len() && now[k] == p;
                assert(all[before.len() + k] == p);
            }
        }
        assert forall|a: int, b: int| 0 <= a < b < all.len() implies all[a] != all[b] by {
            if a < before.len() && b >= before.len() {
                assert(before.contains(before[a]));
                assert(now.contains(now[b - before.len()]));
                if all[a] == all[b] {
                    let m = choose|m: int|
                        0 <= m < n - 1 && #[trigger] passes.take(n - 1)[m] == v.drop_pass(all[a]);
                    assert(passes[m] < passes[n - 1]);
                }
            }
        }
    } else {
        assert(passes.take(0) =~= Seq::<u8>::empty());
    }
}

/// Every listed node is disposed of, once, and lower drop passes come first.
pub proof fn law_drop_order<T>(v: HeapView<T>, list: Seq<GcPtr>)
    requires
        v.reg.wf(),
        list.no_duplicates(),
        forall|k: int|
            0 <= k < list.len() ==> v.head(#[trigger] list[k]).dtype < v.reg.infos.len(),
    ensures
        forall|p: GcPtr| #[trigger] v.drop_order(list).contains(p) <==> list.contains(p),
        v.drop_order(list).no_duplicates(),
        forall|a: int, b: int|
            0 <= a < b < v.drop_order(list).len() ==> v.drop_pass(
                #[trigger] v.drop_order(list)[a],
            ) <= v.drop_pass(#[trigger] v.drop_order(list)[b]),
{
    let n = v.reg.passes.len() as int;
    lemma_order_members(v, list, n);
    assert(v.reg.passes.take(n) =~= v.reg.passes);
    assert forall|p: GcPtr| #[trigger] v.drop_order(list).contains(p) <==> list.contains(p) by {
        if list.contains(p) {
            let k = choose|k: int| 0 <= k < list.len() && list[k] == p;
            assert(v.head(list[k]).dtype < v.reg.infos.len());
            assert(v.reg.passes.contains(v.reg.infos[v.head(p).dtype as int].drop_pass));
        }
    }
    lemma_order_sorted(v, list, n);
}

proof fn lemma_order_sorted<T>(v: HeapView<T>, list: Seq<GcPtr>, n: int)
    requires
        v.reg.wf(),
        0 <= n <= v.reg.passes.len(),
        list.no_duplicates(),
    ensures
        forall|a: int, b: int|
            0 <= a < b < v.order_upto(list, n).len() ==> v.drop_pass(
                #[trigger] v.order_upto(list, n)[a],
            ) <= v.drop_pass(#[trigger] v.order_upto(list, n)[b]),
    decreases n,
{
    if n > 0 {
        lemma_order_sorted(v, list, n - 1);
        lemma_order_members(v, list, n - 1);
        let passes = v.reg.passes;
        let before = v.order_upto(list, n - 1);
        let pred = |p: GcPtr| v.drop_pass(p) == passes[n - 1];
        let now = list.filter(pred);
        lemma_filter_members(list, pred);
        let all = v.order_upto(list, n);
        assert forall|a: int, b: int| 0 <= a < b < all.len() implies v.drop_pass(
            #[trigger] all[a],
        ) <= v.drop_pass(#[trigger] all[b]) by {
            if b >= before.len() {
                assert(now.contains(now[b - before.len()]));
                assert(v.drop_pass(all[b]) == passes[n - 1]);
                if a < before.len() {
                    assert(before.contains(before[a]));
                    let m = choose|m: int|
                        0 <= m < n - 1 && #[trigger] passes.take(n - 1)[m] == v.drop_pass(all[a]);
                    assert(passes[m] < passes[n - 1]);
                } else {
                    assert(now.contains(now[a - before.len()]));
                }
            } else {
                assert(before[a] == all[a] && before[b] == all[b]);
            }
        }
    }
}

/// Disposing of one node more.
pub proof fn lemma_disposed_push<T>(v: HeapView<T>, pid: int, gone: Seq<GcPtr>, p: GcPtr)
    requires
        0 <= pid < v.parts.len(),
        v.live(p),
        !gone.contains(p),
    ensures
        v.disposed(pid, gone.push(p)) == v.disposed(pid, gone).disposed(pid, seq![p]),
{
    let a = v.disposed(pid, gone.push(p));
    let m = v.disposed(pid, gone);
    let b = m.disposed(pid, seq![p]);
    lemma_push_members(gone, p);
    assert(seq![p].contains(p)) by {
        assert(seq![p][0] == p);
    }
    assert forall|q: GcPtr| seq![p].contains(q) implies q == p by {}
    assert(gone.push(p).to_set() =~= gone.to_set().insert(p));
    assert(a.nodes =~= b.nodes);
    assert(a.weak =~= b.weak);
    assert(m.live(p));
    assert(m.nodes[p] == v.nodes[p]);
    lemma_size_push(v.nodes, v.reg.infos, gone, p);
    assert(seq![p] =~= Seq::<GcPtr>::empty().push(p));
    lemma_size_push(m.nodes, v.reg.infos, Seq::empty(), p);
    assert(a.parts =~= b.parts);
}

/// Sweeping one node more.
pub proof fn lemma_sweep_mid_push<T>(v: HeapView<T>, pid: int, gone: Seq<GcPtr>, p: GcPtr)
    requires
        0 <= pid < v.parts.len(),
        v.live(p),
        !gone.contains(p),
    ensures
        ({
            let d = v.sweep_mid(pid, gone).disposed(pid, seq![p]);
            v.sweep_mid(pid, gone.push(p)) == match (v.parts[pid].arena, v.nodes[p].offset) {
                (Some(a), Some(o)) => d.with_part(
                    pid,
                    PartView {
                        arena: Some(v.collected(a, gone).0.after_collect(o as int, v.size(p))),
                        ..d.parts[pid]
                    },
                ),
                _ => d,
            }
        }),
        v.parts[pid].arena matches Some(a) ==> v.collected(a, gone.push(p)).1 == match v.nodes[p].offset {
            Some(o) => v.collected(a, gone).0.holes_after(
                v.collected(a, gone).1,
                o as int,
                v.size(p),
            ),
            None => v.collected(a, gone).1,
        },
{
    lemma_disposed_push(v, pid, gone, p);
    assert(gone.push(p).drop_last() =~= gone);
    let m = v.sweep_mid(pid, gone);
    let d = m.disposed(pid, seq![p]);
    let n = v.disposed(pid, gone);
    let e = n.disposed(pid, seq![p]);
    assert(m.nodes == n.nodes);
    assert(d.nodes =~= e.nodes);
    assert(d.weak =~= e.weak);
    assert(d.total == e.total);
    let w = v.sweep_mid(pid, gone.push(p));
    let x = match (v.parts[pid].arena, v.nodes[p].offset) {
        (Some(a), Some(o)) => d.with_part(
            pid,
            PartView {
                arena: Some(v.collected(a, gone).0.after_collect(o as int, v.size(p))),
                ..d.parts[pid]
            },
        ),
        _ => d,
    };
    assert(w.parts =~= x.parts);
    assert(w =~= x);
}

/// What collecting leaves alone: the capacity of the arena, and holes stay inside it.
pub proof fn lemma_collected_bounds<T>(v: HeapView<T>, pid: int, arena: ArenaView, gone: Seq<GcPtr>)
    requires
        v.arenas_ok(),
        v.parts[pid].arena == Some(arena),
        forall|k: int| 0 <= k < gone.len() ==> v.live(#[trigger] gone[k]),
        forall|k: int| 0 <= k < gone.len() ==> v.pid(#[trigger] gone[k]) == pid,
    ensures
        v.collected(arena, gone).0.capacity == arena.capacity,
        forall|k: int|
            0 <= k < v.collected(arena, gone).1.len() ==> (#[trigger] v.collected(
                arena,
                gone,
            ).1[k]).end() <= arena.capacity,
    decreases gone.len(),
{
    if gone.len() > 0 {
        let d = gone.drop_last();
        assert forall|k: int| 0 <= k < d.len() implies v.live(#[trigger] d[k]) by {
            assert(v.live(gone[k]));
        }
        assert forall|k: int| 0 <= k < d.len() implies v.pid(#[trigger] d[k]) == pid by {
            assert(v.pid(gone[k]) == pid);
        }
        lemma_collected_bounds(v, pid, arena, d);
        assert(v.live(gone[gone.len() - 1]));
        assert(v.pid(gone[gone.len() - 1]) == pid);
    }
}

/// The order of disposal depends on the drop passes of the listed nodes alone.
pub proof fn lemma_order_same<T>(v: HeapView<T>, w: HeapView<T>, list: Seq<GcPtr>, n: int)
    requires
        v.reg == w.reg,
        forall|k: int| 0 <= k < list.len() ==> v.drop_pass(#[trigger] list[k]) == w.drop_pass(list[k]),
    ensures
        v.order_upto(list, n) == w.order_upto(list, n),
    decreases n,
{
    if n > 0 {
        lemma_order_same(v, w, list, n - 1);
        lemma_filter_same(
            list,
            |p: GcPtr| v.drop_pass(p) == v.reg.passes[n - 1],
            |p: GcPtr| w.drop_pass(p) == w.reg.passes[n - 1],
        );
    }
}

/// The size of listed nodes depends on their types alone.
pub proof fn lemma_size_same<T>(v: HeapView<T>, w: HeapView<T>, list: Seq<GcPtr>)
    requires
        v.reg == w.reg,
        forall|k: int|
            0 <= k < list.len() ==> v.head(#[trigger] list[k]).dtype == w.head(list[k]).dtype,
    ensures
        size_of_all(v.nodes, v.reg.infos, list) == size_of_all(w.nodes, w.reg.infos, list),
    decreases list.len(),
{
    if list.len() > 0 {
        let d = list.drop_last();
        assert forall|k: int| 0 <= k < d.len() implies v.head(#[trigger] d[k]).dtype == w.head(
            d[k],
        ).dtype by {
            assert(d[k] == list[k]);
        }
        lemma_size_same(v, w, d);
        assert(v.head(list[list.len() - 1]).dtype == w.head(list[list.len() - 1]).dtype);
    }
}

pub proof fn lemma_collected_same<T>(v: HeapView<T>, w: HeapView<T>, arena: ArenaView, gone: Seq<GcPtr>)
    requires
        v.reg == w.reg,
        forall|k: int|
            0 <= k < gone.len() ==> v.head(#[trigger] gone[k]).dtype == w.head(gone[k]).dtype
                && v.nodes[gone[k]].offset == w.nodes[gone[k]].offset,
    ensures
        v.collected(arena, gone) == w.collected(arena, gone),
    decreases gone.len(),
{
    if gone.len() > 0 {
        let d = gone.drop_last();
        assert forall|k: int| 0 <= k < d.len() implies v.head(#[trigger] d[k]).dtype == w.head(
            d[k],
        ).dtype && v.nodes[d[k]].offset == w.nodes[d[k]].offset by {
            assert(d[k] == gone[k]);
        }
        lemma_collected_same(v, w, arena, d);
        assert(v.head(gone[gone.len() - 1]).dtype == w.head(gone[gone.len() - 1]).dtype);
    }
}

/// Once nodes are swept it makes no difference that their payloads were taken out before.
pub proof fn lemma_emptied_swept<T>(v: HeapView<T>, pid: int, list: Seq<GcPtr>, gone: Seq<GcPtr>)
    requires
        0 <= pid < v.parts.len(),
        forall|k: int| 0 <= k < gone.len() ==> v.live(#[trigger] gone[k]),
        forall|p: GcPtr| #[trigger] list.contains(p) ==> gone.contains(p),
    ensures
        v.emptied(list).swept(pid, gone) == v.swept(pid, gone),
        size_of_all(v.emptied(list).nodes, v.reg.infos, gone) == size_of_all(
            v.nodes,
            v.reg.infos,
            gone,
        ),
{
    let e = v.emptied(list);
    assert forall|k: int| 0 <= k < gone.len() implies v.head(#[trigger] gone[k]).dtype == e.head(
        gone[k],
    ).dtype && v.nodes[gone[k]].offset == e.nodes[gone[k]].offset by {
        assert(v.live(gone[k]));
    }
    lemma_size_same(v, e, gone);
    if v.parts[pid].arena is Some {
        lemma_collected_same(v, e, v.parts[pid].arena.unwrap(), gone);
    }
    let a = e.swept(pid, gone);
    let b = v.swept(pid, gone);
    assert(a.nodes =~= b.nodes) by {
        assert forall|p: GcPtr| v.live(p) && !gone.contains(p) implies e.nodes[p]
            == v.nodes[p] by {}
    }
    assert(a.weak =~= b.weak);
    assert(a.parts =~= b.parts);
    assert(a =~= b);
}

} // verus!
