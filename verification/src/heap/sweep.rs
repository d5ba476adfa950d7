//! Sweeping.

use vstd::prelude::*;

use crate::arena::{spans, Hole, Span};
use crate::heap::GcHeap;
use crate::lemmas::{
    frame, keeps, lemma_disposed_wf, lemma_filter_members, lemma_frame_wf, lemma_keeps_wf,
    lemma_push_members, lemma_size_push, part_frame,
};
use crate::model::{held, size_of_all, HeapView, PartView};
use crate::node::{GcHead, GcPartitionId, GcPtr, GcTriColor, HeadView};
use crate::node_link::{select, GcNodeLink};
use crate::sweeping::{
    law_drop_order, lemma_collected_bounds, lemma_collected_same, lemma_disposed_push,
    lemma_order_members, lemma_order_same, lemma_sweep_mid_push,
};
use crate::table::NodeView;

verus! {

/// The callback was run on a heap and a header that read `heap` and `head`.
pub open spec fn notified<T, F: Fn(&GcHeap<T>, &GcHead)>(
    on_dispose: F,
    heap: HeapView<T>,
    head: HeadView,
) -> bool {
    exists|h: &GcHeap<T>, n: &GcHead|
        h@ == heap && n@ == head && #[trigger] call_ensures(on_dispose, (h, n), ())
}

/// The heap while nodes are disposed of, when those of `gone` are: with `collect` they were given
/// back to the arena.
pub open spec fn dispose_mid<T>(
    v: HeapView<T>,
    pid: int,
    gone: Seq<GcPtr>,
    collect: bool,
) -> HeapView<T> {
    if collect {
        v.sweep_mid(pid, gone)
    } else {
        v.disposed(pid, gone)
    }
}

/// The callback was run for every node of `gone`, with its header, on the heap as it was just
/// before the node was disposed of.
pub open spec fn all_notified<T, F: Fn(&GcHeap<T>, &GcHead)>(
    on_dispose: F,
    v: HeapView<T>,
    pid: int,
    gone: Seq<GcPtr>,
    collect: bool,
) -> bool {
    forall|k: int|
        0 <= k < gone.len() ==> notified(
            on_dispose,
            dispose_mid(v, pid, gone.take(k), collect),
            v.head(#[trigger] gone[k]),
        )
}

impl<T> HeapView<T> {
    /// The heap while the chain of a partition is taken out of it.
    pub open spec fn chainless(self, pid: int) -> HeapView<T> {
        self.with_part(pid, PartView { nodes: Seq::empty(), ..self.parts[pid] })
    }
}

/// The nodes can be disposed of: they are distinct live nodes of the partition, in no chain and
/// held by no scope.
pub open spec fn disposable<T>(v: HeapView<T>, pid: int, list: Seq<GcPtr>) -> bool {
    &&& list.no_duplicates()
    &&& forall|k: int|
        0 <= k < list.len() ==> {
            &&& v.live(#[trigger] list[k])
            &&& v.pid(list[k]) == pid
            &&& !v.parts[pid].nodes.contains(list[k])
            &&& !held(v.stacks, list[k])
        }
}

/// The invariant survives taking nodes out of a chain.
pub proof fn lemma_rechained_wf<T>(v: HeapView<T>, pid: int, part: PartView)
    requires
        v.wf(),
        0 <= pid < v.parts.len(),
        part_frame(v.parts[pid], part),
        part.nodes.no_duplicates(),
        forall|k: int|
            0 <= k < part.nodes.len() ==> v.parts[pid].nodes.contains(#[trigger] part.nodes[k]),
    ensures
        v.with_part(pid, part).wf(),
{
    let w = v.with_part(pid, part);
    assert(w.chains_ok()) by {
        assert forall|i: int| 0 <= i < w.parts.len() implies (
        #[trigger] w.parts[i]).nodes.no_duplicates() by {
            assert(v.parts[i].nodes.no_duplicates());
        }
        assert forall|i: int, k: int|
            0 <= i < w.parts.len() && 0 <= k < w.parts[i].nodes.len() implies w.live(
            #[trigger] w.parts[i].nodes[k],
        ) && w.pid(w.parts[i].nodes[k]) == i by {
            if i == pid {
                assert(v.parts[pid].nodes.contains(part.nodes[k]));
                let m = choose|m: int|
                    0 <= m < v.parts[pid].nodes.len() && v.parts[pid].nodes[m] == part.nodes[k];
                assert(v.live(v.parts[pid].nodes[m]) && v.pid(v.parts[pid].nodes[m]) == pid);
            } else {
                assert(v.live(v.parts[i].nodes[k]) && v.pid(v.parts[i].nodes[k]) == i);
            }
        }
    }
    lemma_frame_wf(v, w);
}

/// Nodes can be swept while the chain of the partition is taken out, as if it were in place.
proof fn lemma_chain_back<T>(v: HeapView<T>, pid: int, list: Seq<GcPtr>)
    requires
        v.wf(),
        0 <= pid < v.parts.len(),
        disposable(v, pid, list),
        v.chainless(pid).swept(pid, v.drop_order(list)).wf(),
    ensures
        ({
            let x = v.chainless(pid).swept(pid, v.drop_order(list));
            let w = v.swept(pid, v.drop_order(list));
            &&& x.with_part(pid, PartView { nodes: v.parts[pid].nodes, ..x.parts[pid] }) == w
            &&& w.wf()
        }),
{
    let e = v.chainless(pid);
    let gone = v.drop_order(list);
    let x = e.swept(pid, gone);
    let w = v.swept(pid, gone);
    let chain = v.parts[pid].nodes;
    let y = x.with_part(pid, PartView { nodes: chain, ..x.parts[pid] });
    assert forall|k: int| 0 <= k < list.len() implies v.head(#[trigger] list[k]).dtype
        < v.reg.infos.len() by {
        assert(v.live(list[k]));
    }
    law_drop_order(v, list);
    if v.parts[pid].arena is Some {
        lemma_collected_same(v, e, v.parts[pid].arena.unwrap(), gone);
    }
    assert(y.parts =~= w.parts);
    assert(y.nodes == w.nodes);
    assert(y.weak =~= w.weak);
    assert(y =~= w);
    assert(frame(x, w));
    assert(w.chains_ok()) by {
        assert forall|i: int| 0 <= i < w.parts.len() implies (
        #[trigger] w.parts[i]).nodes.no_duplicates() by {
            assert(w.parts[i].nodes == v.parts[i].nodes);
            assert(v.parts[i].nodes.no_duplicates());
        }
        assert forall|i: int, k: int|
            0 <= i < w.parts.len() && 0 <= k < w.parts[i].nodes.len() implies w.live(
            #[trigger] w.parts[i].nodes[k],
        ) && w.pid(w.parts[i].nodes[k]) == i by {
            let p = v.parts[i].nodes[k];
            assert(w.parts[i].nodes[k] == p);
            assert(v.live(v.parts[i].nodes[k]) && v.pid(v.parts[i].nodes[k]) == i);
            assert(gone.to_set().contains(p) <==> gone.contains(p));
            if gone.contains(p) {
                assert(list.contains(p));
                let m = choose|m: int| 0 <= m < list.len() && list[m] == p;
                assert(v.pid(list[m]) == pid);
                assert(chain[k] == p);
                assert(!v.parts[pid].nodes.contains(list[m]));
            }
        }
    }
    lemma_frame_wf(x, w);
}

/// The holes while listed nodes are disposed of.
spec fn mid_holes<T>(v: HeapView<T>, pid: int, gone: Seq<GcPtr>, collect: bool) -> Seq<Span> {
    match v.parts[pid].arena {
        Some(a) => if collect {
            v.collected(a, gone).1
        } else {
            Seq::empty()
        },
        None => Seq::empty(),
    }
}

impl<T> GcHeap<T> {
    /// Takes the dead nodes out of the chain of a partition that has finished a marking cycle,
    /// ends the cycle and returns the dead nodes. They keep their payloads until
    /// `sweep_drop_payloads` and stay accounted until `sweep_dispose`. Returns `None` if there is
    /// no such partition or if its marking cycle is not finished.
    pub fn sweep_unlink(&mut self, partition_id: GcPartitionId) -> (r: Option<GcNodeLink>)
        requires
            old(self).wf(),
        ensures
            final(self).wf(),
            r is Some <==> old(self)@.sweepable(partition_id),
            r matches Some(link) ==> link@ == old(self)@.dead_nodes(partition_id.0 as int),
            old(self)@.sweepable(partition_id) ==> final(self)@ == old(self)@.unlinked(
                partition_id.0 as int,
            ),
            !old(self)@.sweepable(partition_id) ==> final(self)@ == old(self)@,
            r matches Some(link) ==> disposable(final(self)@, partition_id.0 as int, link@),
    {
        if (partition_id.0 as usize) >= self.partitions.len() {
            return None;
        }
        let ghost v = self@;
        let ghost pid = partition_id.0 as int;
        if !(self.partitions[partition_id.0 as usize].is_marking() && self.gray_len(partition_id)
            == 0) {
            return None;
        }
        let ghost chain = v.parts[pid].nodes;
        let ghost is_dead = |p: GcPtr| v.dead(p);
        let ghost is_kept = |p: GcPtr| !v.dead(p);
        let mut white: Vec<GcPtr> = Vec::new();
        let mut kept: Vec<GcPtr> = Vec::new();
        let n: usize = self.chain_len(partition_id);
        let mut j: usize = 0;
        assert(chain.take(0).filter(is_dead) =~= Seq::<GcPtr>::empty());
        assert(chain.take(0).filter(is_kept) =~= Seq::<GcPtr>::empty());
        while j < n
            invariant
                *self == *old(self),
                self.wf(),
                v == self@,
                pid == partition_id.0,
                v.has_part(partition_id),
                chain == v.parts[pid].nodes,
                n == chain.len(),
                j <= n,
                is_dead == (|p: GcPtr| v.dead(p)),
                is_kept == (|p: GcPtr| !v.dead(p)),
                white@ == chain.take(j as int).filter(is_dead),
                kept@ == chain.take(j as int).filter(is_kept),
            decreases n - j,
        {
            let p = self.chain_at(partition_id, j);
            assert(v.live(v.parts[pid].nodes[j as int]));
            let head = self.table.head(p);
            let dead: bool = head.color() == GcTriColor::White && !head.is_root_or_local();
            proof {
                assert(chain.take(j + 1) =~= chain.take(j as int).push(p));
                chain.take(j as int).lemma_filter_push(p, is_dead);
                chain.take(j as int).lemma_filter_push(p, is_kept);
            }
            if dead {
                white.push(p);
            } else {
                kept.push(p);
            }
            j = j + 1;
        }
        proof {
            assert(chain.take(n as int) =~= chain);
            lemma_filter_members(chain, is_dead);
            lemma_filter_members(chain, is_kept);
            assert(v.parts[pid].nodes.no_duplicates());
        }
        self.partitions[partition_id.0 as usize].set_marking(false);
        self.partitions[partition_id.0 as usize].set_nodes(GcNodeLink::new(kept));
        proof {
            let w = v.unlinked(pid);
            let part = w.parts[pid];
            assert(self@ =~= w);
            assert forall|k: int| 0 <= k < part.nodes.len() implies v.parts[pid].nodes.contains(
                #[trigger] part.nodes[k],
            ) by {
                assert(part.nodes.contains(part.nodes[k]));
            }
            lemma_rechained_wf(v, pid, part);
            assert forall|k: int| 0 <= k < white@.len() implies {
                &&& w.live(#[trigger] white@[k])
                &&& w.pid(white@[k]) == pid
                &&& !w.parts[pid].nodes.contains(white@[k])
                &&& !held(w.stacks, white@[k])
            } by {
                let p = white@[k];
                assert(white@.contains(p));
                let m = choose|m: int| 0 <= m < chain.len() && chain[m] == p;
                assert(v.live(v.parts[pid].nodes[m]) && v.pid(v.parts[pid].nodes[m]) == pid);
                assert(v.dead(p));
                assert(!kept@.contains(p));
                if held(w.stacks, p) {
                    let (s, d, i) = choose|s: int, d: int, i: int|
                        crate::model::is_place(w.stacks, s, d, i) && #[trigger] crate::model::place(
                            w.stacks,
                            s,
                            d,
                            i,
                        ) == p;
                    assert(v.head(crate::model::place(v.stacks, s, d, i)).local);
                }
            }
        }
        Some(GcNodeLink::new(white))
    }

    /// Takes the payloads out of the listed nodes, where dropping them runs code, and returns
    /// them in the order of the list. They are dropped by the caller, who needs no access to the
    /// heap for it.
    pub fn sweep_drop_payloads(&mut self, white: &GcNodeLink) -> (r: Vec<T>)
        requires
            old(self).wf(),
            white@.no_duplicates(),
            forall|k: int| 0 <= k < white@.len() ==> old(self)@.live(#[trigger] white@[k]),
        ensures
            final(self).wf(),
            final(self)@ == old(self)@.emptied(white@),
            r@ == old(self)@.payloads(white@),
            keeps(old(self)@, final(self)@),
    {
        let ghost v = self@;
        let mut out: Vec<T> = Vec::new();
        let n: usize = white.len();
        let mut j: usize = 0;
        proof {
            assert(v.emptied(white@.take(0)).nodes =~= v.nodes);
            assert(v.emptied(white@.take(0)) =~= v);
        }
        while j < n
            invariant
                n == white@.len(),
                j <= n,
                v.wf(),
                white@.no_duplicates(),
                forall|k: int| 0 <= k < white@.len() ==> v.live(#[trigger] white@[k]),
                self.inv(),
                self@ == v.emptied(white@.take(j as int)),
                out@ == v.payloads(white@.take(j as int)),
            decreases n - j,
        {
            let p = white.get(j);
            let ghost done = white@.take(j as int);
            proof {
                assert(white@[j as int] == p);
                assert(v.live(p));
                assert(!done.contains(p)) by {
                    if done.contains(p) {
                        let k = choose|k: int| 0 <= k < done.len() && done[k] == p;
                        assert(white@[k] == white@[j as int]);
                    }
                }
                assert(self@.live(p));
                assert(self@.nodes[p] == v.nodes[p]);
                assert(white@.take(j + 1) =~= done.push(p));
                assert(done.push(p).drop_last() =~= done);
                lemma_push_members(done, p);
            }
            let dtype: u8 = self.table.head(p).dtype();
            if self.node_dtypes.info(dtype).needs_drop {
                match self.table.take_payload(p) {
                    Some(t) => {
                        out.push(t);
                    },
                    None => {},
                }
            }
            proof {
                let w = v.emptied(white@.take(j + 1));
                assert(self@.nodes =~= w.nodes);
                assert(self@ =~= w);
            }
            j = j + 1;
        }
        proof {
            assert(white@.take(n as int) =~= white@);
            assert(self@.nodes.dom() =~= v.nodes.dom());
            lemma_keeps_wf(v, self@);
        }
        out
    }

    /// Disposes of the listed nodes of a partition by drop pass, after `on_dispose` was called
    /// with each of them. With `collect` they are given back to the arena.
    #[verifier::rlimit(40)]
    fn dispose_by_pass<F: Fn(&GcHeap<T>, &GcHead)>(
        &mut self,
        partition_id: GcPartitionId,
        list: &Vec<GcPtr>,
        on_dispose: F,
        collect: bool,
    ) -> (r: usize)
        requires
            old(self).wf(),
            old(self)@.has_part(partition_id),
            disposable(old(self)@, partition_id.0 as int, list@),
            forall|h: &GcHeap<T>, n: &GcHead|
                h.wf() && n.wf() ==> #[trigger] call_requires(on_dispose, (h, n)),
        ensures
            final(self).wf(),
            ({
                let gone = old(self)@.drop_order(list@);
                &&& collect ==> final(self)@ == old(self)@.swept(partition_id.0 as int, gone)
                &&& !collect ==> final(self)@ == old(self)@.disposed(partition_id.0 as int, gone)
                &&& r == size_of_all(old(self)@.nodes, old(self)@.reg.infos, gone)
                &&& all_notified(on_dispose, old(self)@, partition_id.0 as int, gone, collect)
            }),
    {
        let ghost v = self@;
        let ghost pid = partition_id.0 as int;
        let ghost passes = v.reg.passes;
        let count: usize = list.len();
        let pass_count: usize = self.node_dtypes.drop_passes().len();
        let mut pass_of: Vec<u8> = Vec::new();
        let mut j: usize = 0;
        while j < count
            invariant
                count == list@.len(),
                j <= count,
                *self == *old(self),
                self.wf(),
                v == self@,
                pid == partition_id.0,
                disposable(v, pid, list@),
                pass_of@.len() == j,
                forall|k: int| 0 <= k < j ==> pass_of@[k] == v.drop_pass(#[trigger] list@[k]),
            decreases count - j,
        {
            let p = list[j];
            assert(v.live(list@[j as int]));
            let dtype: u8 = self.table.head(p).dtype();
            pass_of.push(self.node_dtypes.info(dtype).drop_pass);
            j = j + 1;
        }
        let mut freed: usize = 0;
        let mut holes: Vec<Hole> = Vec::new();
        let ghost mut gone: Seq<GcPtr> = Seq::empty();
        proof {
            self.partitions@[pid].lemma_used();
            assert(v.parts[pid].used <= usize::MAX);
            let none = Seq::<GcPtr>::empty();
            assert(none.to_set() =~= Set::<GcPtr>::empty());
            assert(v.disposed(pid, none).nodes =~= v.nodes);
            assert(v.disposed(pid, none).weak =~= v.weak);
            assert(v.disposed(pid, none).parts =~= v.parts);
            assert(v.disposed(pid, none) =~= v);
            assert(v.sweep_mid(pid, none).parts =~= v.parts);
            assert(v.sweep_mid(pid, none) =~= v);
            assert(spans(holes@) =~= mid_holes(v, pid, none, collect));
        }
        let mut k: usize = 0;
        while k < pass_count
            invariant
                count == list@.len(),
                pass_count == passes.len(),
                passes == v.reg.passes,
                k <= pass_count,
                v.wf(),
                pid == partition_id.0,
                v.has_part(partition_id),
                v.parts[pid].used <= usize::MAX,
                disposable(v, pid, list@),
                forall|h: &GcHeap<T>, n: &GcHead|
                    h.wf() && n.wf() ==> #[trigger] call_requires(on_dispose, (h, n)),
                pass_of@.len() == count,
                forall|m: int| 0 <= m < count ==> pass_of@[m] == v.drop_pass(#[trigger] list@[m]),
                gone == v.order_upto(list@, k as int),
                self.wf(),
                self@ == dispose_mid(v, pid, gone, collect),
                spans(holes@) == mid_holes(v, pid, gone, collect),
                freed == size_of_all(v.nodes, v.reg.infos, gone),
                all_notified(on_dispose, v, pid, gone, collect),
            decreases pass_count - k,
        {
            let pass: u8 = self.node_dtypes.drop_passes()[k];
            let ghost before = gone;
            let ghost pred = |p: GcPtr| v.drop_pass(p) == passes[k as int];
            proof {
                lemma_order_members(v, list@, k as int);
                assert(list@.take(0).filter(pred) =~= Seq::<GcPtr>::empty());
                assert(before + list@.take(0).filter(pred) =~= before);
            }
            let mut j: usize = 0;
            while j < count
                invariant
                    count == list@.len(),
                    passes == v.reg.passes,
                    k < passes.len(),
                    pass == passes[k as int],
                    j <= count,
                    v.wf(),
                    pid == partition_id.0,
                    v.has_part(partition_id),
                    v.parts[pid].used <= usize::MAX,
                    disposable(v, pid, list@),
                    forall|h: &GcHeap<T>, n: &GcHead|
                        h.wf() && n.wf() ==> #[trigger] call_requires(on_dispose, (h, n)),
                    pass_of@.len() == count,
                    forall|m: int|
                        0 <= m < count ==> pass_of@[m] == v.drop_pass(#[trigger] list@[m]),
                    pred == (|p: GcPtr| v.drop_pass(p) == passes[k as int]),
                    before.no_duplicates(),
                    forall|p: GcPtr| #[trigger]
                        before.contains(p) <==> list@.contains(p) && passes.take(
                            k as int,
                        ).contains(v.drop_pass(p)),
                    gone == before + list@.take(j as int).filter(pred),
                    self.wf(),
                    self@ == dispose_mid(v, pid, gone, collect),
                    spans(holes@) == mid_holes(v, pid, gone, collect),
                    freed == size_of_all(v.nodes, v.reg.infos, gone),
                    all_notified(on_dispose, v, pid, gone, collect),
                decreases count - j,
            {
                let p = list[j];
                proof {
                    assert(pass_of@[j as int] == v.drop_pass(list@[j as int]));
                    assert(list@.take(j + 1) =~= list@.take(j as int).push(p));
                    list@.take(j as int).lemma_filter_push(p, pred);
                }
                if pass_of[j] == pass {
                    let ghost now = list@.take(j as int).filter(pred);
                    proof {
                        assert(v.live(list@[j as int]));
                        lemma_filter_members(list@.take(j as int), pred);
                        assert forall|q: GcPtr| gone.contains(q) implies list@.contains(q) && q
                            != p by {
                            let m = choose|m: int| 0 <= m < gone.len() && gone[m] == q;
                            if m < before.len() {
                                assert(before[m] == q);
                                assert(before.contains(q));
                                let x = choose|x: int|
                                    0 <= x < k && #[trigger] passes.take(k as int)[x]
                                        == v.drop_pass(q);
                                assert(passes[x] < passes[k as int]);
                            } else {
                                assert(now[m - before.len()] == q);
                                assert(now.contains(q));
                                let x = choose|x: int|
                                    0 <= x < j && #[trigger] list@.take(j as int)[x] == q;
                                assert(list@[x] == q);
                                assert(list@[x] != list@[j as int]);
                            }
                        }
                        assert(!gone.contains(p));
                        assert forall|m: int| 0 <= m < gone.len() implies v.live(
                            #[trigger] gone[m],
                        ) && v.pid(gone[m]) == pid by {
                            assert(gone.contains(gone[m]));
                            let x = choose|x: int| 0 <= x < list@.len() && list@[x] == gone[m];
                            assert(v.live(list@[x]));
                        }
                        assert(self@.live(p));
                        assert(self@.nodes[p] == v.nodes[p]);
                        assert(self@.parts[pid].nodes == v.parts[pid].nodes);
                        assert(self@.stacks == v.stacks);
                        assert(self@.reg == v.reg);
                        lemma_disposed_wf(self@, p);
                        assert(self@.parts[pid].used == v.parts[pid].used - freed);
                        lemma_size_push(v.nodes, v.reg.infos, gone, p);
                    }
                    let head = self.table.head(p);
                    on_dispose(&*self, head);
                    let ghost grown = gone.push(p);
                    proof {
                        assert(call_ensures(on_dispose, (&*self, head), ()));
                        assert(notified(
                            on_dispose,
                            dispose_mid(v, pid, gone, collect),
                            v.head(p),
                        ));
                        assert forall|m: int| 0 <= m < grown.len() implies notified(
                            on_dispose,
                            dispose_mid(v, pid, grown.take(m), collect),
                            v.head(#[trigger] grown[m]),
                        ) by {
                            if m < gone.len() {
                                assert(grown[m] == gone[m]);
                                assert(grown.take(m) =~= gone.take(m));
                            } else {
                                assert(grown.take(m) =~= gone);
                            }
                        }
                    }
                    let offset: Option<usize> = self.table.offset(p);
                    let size: usize = self.dispose(p);
                    freed = freed + size;
                    proof {
                        if collect {
                            lemma_sweep_mid_push(v, pid, gone, p);
                            if v.parts[pid].arena is Some {
                                lemma_collected_bounds(
                                    v,
                                    pid,
                                    v.parts[pid].arena.unwrap(),
                                    gone,
                                );
                            }
                        } else {
                            lemma_disposed_push(v, pid, gone, p);
                        }
                    }
                    if collect {
                        match offset {
                            Some(o) => {
                                let ghost w = self@;
                                self.partitions[partition_id.0 as usize].arena_collect(
                                    &mut holes,
                                    o,
                                    size,
                                );
                                proof {
                                    assert(self@ =~= v.sweep_mid(pid, grown));
                                    assert(keeps(w, self@)) by {
                                        assert(self@.nodes.dom() =~= w.nodes.dom());
                                    }
                                    lemma_keeps_wf(w, self@);
                                }
                            },
                            None => {},
                        }
                    }
                    proof {
                        assert(grown =~= before + list@.take(j + 1).filter(pred));
                        gone = grown;
                    }
                }
                j = j + 1;
            }
            proof {
                assert(list@.take(count as int) =~= list@);
            }
            k = k + 1;
        }
        if collect {
            let ghost w = self@;
            proof {
                lemma_order_members(v, list@, pass_count as int);
                assert forall|m: int| 0 <= m < gone.len() implies v.live(#[trigger] gone[m])
                    && v.pid(gone[m]) == pid by {
                    assert(gone.contains(gone[m]));
                    let x = choose|x: int| 0 <= x < list@.len() && list@[x] == gone[m];
                    assert(v.live(list@[x]));
                }
                if v.parts[pid].arena is Some {
                    lemma_collected_bounds(v, pid, v.parts[pid].arena.unwrap(), gone);
                    assert forall|m: int| 0 <= m < holes@.len() implies (#[trigger] holes@[m])@.end()
                        <= v.parts[pid].arena.unwrap().capacity by {
                        assert(spans(holes@)[m] == holes@[m]@);
                    }
                }
            }
            self.partitions[partition_id.0 as usize].arena_finish(&mut holes);
            proof {
                assert(self@ =~= v.swept(pid, gone));
                assert(keeps(w, self@)) by {
                    assert(self@.nodes.dom() =~= w.nodes.dom());
                }
                lemma_keeps_wf(w, self@);
            }
        }
        freed
    }

    /// The listed nodes in the order in which they are disposed of.
    pub(crate) fn drop_order_list(&self, list: &Vec<GcPtr>) -> (r: Vec<GcPtr>)
        requires
            self.wf(),
            forall|k: int| 0 <= k < list@.len() ==> self@.live(#[trigger] list@[k]),
        ensures
            r@ == self@.drop_order(list@),
    {
        let ghost v = self@;
        let n: usize = list.len();
        let pass_count: usize = self.node_dtypes.drop_passes().len();
        let mut out: Vec<GcPtr> = Vec::new();
        let mut k: usize = 0;
        while k < pass_count
            invariant
                n == list@.len(),
                v == self@,
                self.wf(),
                pass_count == v.reg.passes.len(),
                k <= pass_count,
                forall|m: int| 0 <= m < list@.len() ==> v.live(#[trigger] list@[m]),
                out@ == v.order_upto(list@, k as int),
            decreases pass_count - k,
        {
            let pass: u8 = self.node_dtypes.drop_passes()[k];
            let ghost before = out@;
            let ghost pred = |p: GcPtr| v.drop_pass(p) == v.reg.passes[k as int];
            proof {
                assert(list@.take(0).filter(pred) =~= Seq::<GcPtr>::empty());
                assert(before + list@.take(0).filter(pred) =~= before);
            }
            let mut j: usize = 0;
            while j < n
                invariant
                    n == list@.len(),
                    v == self@,
                    self.wf(),
                    k < v.reg.passes.len(),
                    pass == v.reg.passes[k as int],
                    j <= n,
                    pred == (|p: GcPtr| v.drop_pass(p) == v.reg.passes[k as int]),
                    forall|m: int| 0 <= m < list@.len() ==> v.live(#[trigger] list@[m]),
                    out@ == before + list@.take(j as int).filter(pred),
                decreases n - j,
            {
                let p = list[j];
                proof {
                    assert(v.live(list@[j as int]));
                    assert(list@.take(j + 1) =~= list@.take(j as int).push(p));
                    list@.take(j as int).lemma_filter_push(p, pred);
                }
                let dtype: u8 = self.table.head(p).dtype();
                if self.node_dtypes.info(dtype).drop_pass == pass {
                    out.push(p);
                    assert(out@ =~= before + list@.take(j + 1).filter(pred));
                }
                j = j + 1;
            }
            assert(list@.take(n as int) =~= list@);
            k = k + 1;
        }
        out
    }

    /// Disposes of the listed nodes of a partition by drop pass, gives them back to the arena and
    /// puts the chain of the partition back, which is taken out while `on_dispose` is called with
    /// each of them.
    fn dispose_apart<F: Fn(&GcHeap<T>, &GcHead)>(
        &mut self,
        partition_id: GcPartitionId,
        list: &Vec<GcPtr>,
        on_dispose: F,
    ) -> (r: usize)
        requires
            old(self).wf(),
            old(self)@.has_part(partition_id),
            disposable(old(self)@, partition_id.0 as int, list@),
            forall|h: &GcHeap<T>, n: &GcHead|
                h.wf() && n.wf() ==> #[trigger] call_requires(on_dispose, (h, n)),
        ensures
            final(self).wf(),
            ({
                let pid = partition_id.0 as int;
                let gone = old(self)@.drop_order(list@);
                &&& final(self)@ == old(self)@.swept(pid, gone)
                &&& r == size_of_all(old(self)@.nodes, old(self)@.reg.infos, gone)
                &&& all_notified(on_dispose, old(self)@.chainless(pid), pid, gone, true)
            }),
    {
        let ghost v = self@;
        let ghost pid = partition_id.0 as int;
        let ghost chain = v.parts[pid].nodes;
        let ghost e = v.chainless(pid);
        let kept: Vec<GcPtr> = self.partitions[partition_id.0 as usize].nodes().to_vec();
        self.partitions[partition_id.0 as usize].set_nodes(GcNodeLink::default());
        proof {
            assert(kept@ == chain);
            assert(self@ =~= e);
            lemma_rechained_wf(v, pid, e.parts[pid]);
            lemma_order_same(v, e, list@, v.reg.passes.len() as int);
            assert forall|k: int| 0 <= k < list@.len() implies {
                &&& e.live(#[trigger] list@[k])
                &&& e.pid(list@[k]) == pid
                &&& !e.parts[pid].nodes.contains(list@[k])
                &&& !held(e.stacks, list@[k])
            } by {
                assert(v.live(list@[k]));
            }
        }
        let freed: usize = self.dispose_by_pass(partition_id, list, on_dispose, true);
        let ghost x = self@;
        self.partitions[partition_id.0 as usize].set_nodes(GcNodeLink::new(kept));
        proof {
            assert(self@ =~= x.with_part(pid, PartView { nodes: chain, ..x.parts[pid] }));
            lemma_chain_back(v, pid, list@);
        }
        freed
    }

    /// Disposes of nodes taken out by `sweep_unlink`: their weak references become void, their
    /// bytes are not accounted any more and their places in the arena are free again. Returns
    /// the number of bytes.
    pub fn sweep_dispose(&mut self, partition_id: GcPartitionId, white: GcNodeLink) -> (r: usize)
        requires
            old(self).wf(),
            old(self)@.has_part(partition_id),
            disposable(old(self)@, partition_id.0 as int, white@),
        ensures
            final(self).wf(),
            final(self)@ == old(self)@.swept(
                partition_id.0 as int,
                old(self)@.drop_order(white@),
            ),
            r == size_of_all(
                old(self)@.nodes,
                old(self)@.reg.infos,
                old(self)@.drop_order(white@),
            ),
    {
        let list: Vec<GcPtr> = white.into_inner();
        self.dispose_by_pass(partition_id, &list, |_h: &GcHeap<T>, _n: &GcHead| {  }, true)
    }

    /// Sweeps a partition that has finished a marking cycle: disposes of its dead nodes, by drop
    /// pass, after `on_dispose` was called with each of them. The chain of the partition is taken
    /// out meanwhile. Returns the number of bytes freed. Does nothing if the marking cycle is not
    /// finished.
    pub fn sweep<F: Fn(&GcHeap<T>, &GcHead)>(
        &mut self,
        partition_id: GcPartitionId,
        on_dispose: F,
    ) -> (r: usize)
        requires
            old(self).wf(),
            forall|h: &GcHeap<T>, n: &GcHead|
                h.wf() && n.wf() ==> #[trigger] call_requires(on_dispose, (h, n)),
        ensures
            final(self).wf(),
            !old(self)@.sweepable(partition_id) ==> r == 0 && final(self)@ == old(self)@,
            old(self)@.sweepable(partition_id) ==> {
                let pid = partition_id.0 as int;
                let gone = old(self)@.drop_order(old(self)@.dead_nodes(pid));
                &&& r == old(self)@.dead_bytes(pid)
                &&& final(self)@ == old(self)@.sweep_done(pid)
                &&& all_notified(
                    on_dispose,
                    old(self)@.unlinked(pid).chainless(pid),
                    pid,
                    gone,
                    true,
                )
            },
    {
        let ghost v = self@;
        let ghost pid = partition_id.0 as int;
        match self.sweep_unlink(partition_id) {
            Some(white) => {
                let ghost u = self@;
                let list: Vec<GcPtr> = white.into_inner();
                proof {
                    lemma_order_same(v, u, list@, v.reg.passes.len() as int);
                }
                self.dispose_apart(partition_id, &list, on_dispose)
            },
            None => 0,
        }
    }

    /// Disposes of all nodes of a chain that belong to the partition, by drop pass, after
    /// `on_dispose` was called with each of them. Returns the number of bytes.
    pub(crate) fn dispose_all_nodes<F: Fn(&GcHeap<T>, &GcHead)>(
        &mut self,
        partition_id: GcPartitionId,
        link: GcNodeLink,
        on_dispose: F,
    ) -> (r: usize)
        requires
            old(self).wf(),
            old(self)@.has_part(partition_id),
            disposable(old(self)@, partition_id.0 as int, link@),
            forall|h: &GcHeap<T>, n: &GcHead|
                h.wf() && n.wf() ==> #[trigger] call_requires(on_dispose, (h, n)),
        ensures
            final(self).wf(),
            ({
                let gone = old(self)@.drop_order(link@);
                &&& final(self)@ == old(self)@.disposed(partition_id.0 as int, gone)
                &&& r == size_of_all(old(self)@.nodes, old(self)@.reg.infos, gone)
                &&& all_notified(on_dispose, old(self)@, partition_id.0 as int, gone, false)
            }),
    {
        let list: Vec<GcPtr> = link.into_inner();
        self.dispose_by_pass(partition_id, &list, on_dispose, false)
    }
}

/// The predicate, called on a node that reads `node`, may answer `verdict`.
pub open spec fn chosen<T, P: Fn(&GcHead, Option<&T>) -> bool>(
    predicate: P,
    node: NodeView<T>,
    verdict: bool,
) -> bool {
    exists|h: &GcHead, t: Option<&T>|
        {
            &&& h@ == node.head
            &&& t is Some <==> node.payload is Some
            &&& t matches Some(x) ==> node.payload == Some(*x)
            &&& #[trigger] call_ensures(predicate, (h, t), verdict)
        }
}

/// The marks are answers of the predicate on the listed nodes.
pub open spec fn all_chosen<T, P: Fn(&GcHead, Option<&T>) -> bool>(
    predicate: P,
    v: HeapView<T>,
    list: Seq<GcPtr>,
    marks: Seq<bool>,
) -> bool {
    &&& marks.len() == list.len()
    &&& forall|k: int|
        0 <= k < marks.len() ==> chosen(predicate, v.nodes[list[k]], #[trigger] marks[k])
}

/// The heap after the nodes of a partition with a mark were taken out of its chain.
pub open spec fn marked_unlinked<T>(v: HeapView<T>, pid: int, marks: Seq<bool>) -> HeapView<T> {
    v.with_part(
        pid,
        PartView { nodes: select(v.parts[pid].nodes, marks, false), ..v.parts[pid] },
    )
}

/// The heap after the nodes of a partition with a mark were swept.
pub open spec fn marked_swept<T>(v: HeapView<T>, pid: int, marks: Seq<bool>) -> HeapView<T> {
    marked_unlinked(v, pid, marks).swept(
        pid,
        v.drop_order(select(v.parts[pid].nodes, marks, true)),
    )
}

pub proof fn lemma_select_members(list: Seq<GcPtr>, marks: Seq<bool>, want: bool)
    requires
        marks.len() == list.len(),
    ensures
        forall|p: GcPtr| #[trigger]
            select(list, marks, want).contains(p) ==> exists|k: int|
                0 <= k < list.len() && list[k] == p && marks[k] == want,
        list.no_duplicates() ==> select(list, marks, want).no_duplicates(),
    decreases list.len(),
{
    if list.len() > 0 {
        let d = list.drop_last();
        let m = marks.drop_last();
        lemma_select_members(d, m, want);
        let rest = select(d, m, want);
        let all = select(list, marks, want);
        assert forall|p: GcPtr| #[trigger] all.contains(p) implies exists|k: int|
            0 <= k < list.len() && list[k] == p && marks[k] == want by {
            let x = choose|x: int| 0 <= x < all.len() && all[x] == p;
            if x < rest.len() {
                assert(rest[x] == p);
                assert(rest.contains(p));
                let k = choose|k: int| 0 <= k < d.len() && d[k] == p && m[k] == want;
                assert(list[k] == p && marks[k] == want);
            } else {
                assert(list[list.len() - 1] == p && marks[list.len() - 1] == want);
            }
        }
        if list.no_duplicates() {
            assert(d.no_duplicates());
            assert forall|a: int, b: int| 0 <= a < b < all.len() implies all[a] != all[b] by {
                if b >= rest.len() {
                    assert(rest[a] == all[a]);
                    assert(rest.contains(all[a]));
                    let k = choose|k: int| 0 <= k < d.len() && d[k] == all[a] && m[k] == want;
                    assert(list[k] != list[list.len() - 1]);
                }
            }
        }
    }
}

impl<T> GcHeap<T> {
    /// Sweeps the nodes of a partition that satisfy `predicate`, whatever their color: disposes
    /// of them, by drop pass, after `on_dispose` was called with each of them. The chain of the
    /// partition is taken out meanwhile. Returns the number of bytes freed; zero if there is no
    /// such partition or if it has no nodes.
    pub fn sweep_with<P: Fn(&GcHead, Option<&T>) -> bool, F: Fn(&GcHeap<T>, &GcHead)>(
        &mut self,
        partition_id: GcPartitionId,
        predicate: P,
        on_dispose: F,
    ) -> (r: usize)
        requires
            old(self).wf(),
            forall|h: &GcHead, t: Option<&T>|
                h.wf() ==> #[trigger] call_requires(predicate, (h, t)),
            forall|h: &GcHeap<T>, n: &GcHead|
                h.wf() && n.wf() ==> #[trigger] call_requires(on_dispose, (h, n)),
            old(self)@.has_part(partition_id) ==> forall|k: int|
                0 <= k < old(self)@.parts[partition_id.0 as int].nodes.len() && chosen(
                    predicate,
                    old(self)@.nodes[old(self)@.parts[partition_id.0 as int].nodes[k]],
                    true,
                ) ==> !held(
                    old(self)@.stacks,
                    #[trigger] old(self)@.parts[partition_id.0 as int].nodes[k],
                ),
        ensures
            final(self).wf(),
            !old(self)@.has_part(partition_id) || old(
                self,
            )@.parts[partition_id.0 as int].nodes.len() == 0 ==> r == 0 && final(self)@ == old(
                self,
            )@,
            old(self)@.has_part(partition_id) && old(
                self,
            )@.parts[partition_id.0 as int].nodes.len() > 0 ==> exists|marks: Seq<bool>|
                {
                    let pid = partition_id.0 as int;
                    let chain = old(self)@.parts[pid].nodes;
                    let gone = old(self)@.drop_order(select(chain, marks, true));
                    &&& #[trigger] all_chosen(
                        predicate,
                        old(self)@,
                        old(self)@.parts[partition_id.0 as int].nodes,
                        marks,
                    )
                    &&& final(self)@ == marked_swept(old(self)@, pid, marks)
                    &&& r == size_of_all(old(self)@.nodes, old(self)@.reg.infos, gone)
                    &&& all_notified(
                        on_dispose,
                        marked_unlinked(old(self)@, pid, marks).chainless(pid),
                        pid,
                        gone,
                        true,
                    )
                },
    {
        if (partition_id.0 as usize) >= self.partitions.len() {
            return 0;
        }
        let ghost v = self@;
        let ghost pid = partition_id.0 as int;
        let ghost chain = v.parts[pid].nodes;
        let n: usize = self.chain_len(partition_id);
        if n == 0 {
            return 0;
        }
        let mut removed: Vec<GcPtr> = Vec::new();
        let mut kept: Vec<GcPtr> = Vec::new();
        let ghost mut marks: Seq<bool> = Seq::empty();
        let mut j: usize = 0;
        while j < n
            invariant
                *self == *old(self),
                self.wf(),
                v == self@,
                pid == partition_id.0,
                v.has_part(partition_id),
                chain == v.parts[pid].nodes,
                n == chain.len(),
                j <= n,
                forall|h: &GcHead, t: Option<&T>|
                    h.wf() ==> #[trigger] call_requires(predicate, (h, t)),
                all_chosen(predicate, v, chain.take(j as int), marks),
                removed@ == select(chain.take(j as int), marks, true),
                kept@ == select(chain.take(j as int), marks, false),
            decreases n - j,
        {
            let p = self.chain_at(partition_id, j);
            assert(v.live(v.parts[pid].nodes[j as int]));
            let head = self.table.head(p);
            let payload = self.table.payload(p);
            let hit: bool = predicate(head, payload);
            proof {
                let grown = marks.push(hit);
                assert(grown.drop_last() =~= marks);
                assert(chain.take(j + 1).drop_last() =~= chain.take(j as int));
                assert(chosen(predicate, v.nodes[p], hit)) by {
                    assert(call_ensures(predicate, (head, payload), hit));
                }
                assert forall|k: int| 0 <= k < grown.len() implies chosen(
                    predicate,
                    v.nodes[chain.take(j + 1)[k]],
                    #[trigger] grown[k],
                ) by {
                    if k < marks.len() {
                        assert(grown[k] == marks[k]);
                        assert(chain.take(j + 1)[k] == chain.take(j as int)[k]);
                    }
                }
                marks = grown;
            }
            if hit {
                removed.push(p);
            } else {
                kept.push(p);
            }
            j = j + 1;
        }
        self.partitions[partition_id.0 as usize].set_nodes(GcNodeLink::new(kept));
        let ghost part = PartView { nodes: select(chain, marks, false), ..v.parts[pid] };
        let ghost u = v.with_part(pid, part);
        proof {
            assert(chain.take(n as int) =~= chain);
            assert(self@ =~= u);
            lemma_select_members(chain, marks, true);
            lemma_select_members(chain, marks, false);
            assert(v.parts[pid].nodes.no_duplicates());
            assert forall|k: int| 0 <= k < part.nodes.len() implies v.parts[pid].nodes.contains(
                #[trigger] part.nodes[k],
            ) by {
                assert(part.nodes.contains(part.nodes[k]));
            }
            lemma_rechained_wf(v, pid, part);
            assert forall|k: int| 0 <= k < removed@.len() implies {
                &&& u.live(#[trigger] removed@[k])
                &&& u.pid(removed@[k]) == pid
                &&& !u.parts[pid].nodes.contains(removed@[k])
                &&& !held(u.stacks, removed@[k])
            } by {
                let p = removed@[k];
                assert(select(chain, marks, true).contains(p));
                let m = choose|m: int| 0 <= m < chain.len() && chain[m] == p && marks[m] == true;
                assert(v.live(v.parts[pid].nodes[m]) && v.pid(v.parts[pid].nodes[m]) == pid);
                assert(chosen(predicate, v.nodes[chain[m]], marks[m]));
                if select(chain, marks, false).contains(p) {
                    let x = choose|x: int|
                        0 <= x < chain.len() && chain[x] == p && marks[x] == false;
                    assert(chain[x] == chain[m]);
                }
            }
            lemma_order_same(v, u, removed@, v.reg.passes.len() as int);
        }
        let freed: usize = self.dispose_apart(partition_id, &removed, on_dispose);
        assert(all_chosen(predicate, v, chain, marks));
        freed
    }
}

} // verus!
