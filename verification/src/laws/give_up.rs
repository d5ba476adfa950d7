//! What is left of a heap that is given up.

use vstd::prelude::*;

use crate::laws::memory::{accounted, law_dispose_accounted};
use crate::laws::steps::{lemma_quiet_trans, lemma_same_accounted, quiet, weak_follows};
use crate::model::{HeapView, PartView, WeakSlotView};
use crate::node::GcPtr;
use crate::sweeping::law_drop_order;

verus! {

/// Closing all scopes of all stacks is quiet.
pub proof fn law_stacks_quiet<T>(v: HeapView<T>, n: int)
    ensures
        quiet(v, v.stacks_closed(n)),
        v.stacks_closed(n).parts == v.parts,
    decreases n,
{
    if n > 0 {
        let w = v.stacks_closed(n - 1);
        law_stacks_quiet(v, n - 1);
        lemma_stack_quiet(w, n - 1);
        lemma_quiet_trans(v, w, v.stacks_closed(n));
    }
}

proof fn lemma_stack_quiet<T>(v: HeapView<T>, s: int)
    ensures
        quiet(v, v.stack_closed(s)),
        v.stack_closed(s).parts == v.parts,
    decreases v.stacks[s].scopes.len(),
{
    if 0 <= s < v.stacks.len() && v.stacks[s].scopes.len() > 0 {
        let w = v.scope_popped(s);
        assert(w.nodes.dom() =~= v.nodes.dom());
        assert(quiet(v, w));
        lemma_stack_quiet(w, s);
        lemma_quiet_trans(v, w, v.stack_closed(s));
    }
}

/// The nodes in the chains of the first `n` partitions.
pub open spec fn chains_upto<T>(v: HeapView<T>, n: int) -> Seq<GcPtr>
    decreases n,
{
    if n <= 0 {
        Seq::empty()
    } else {
        chains_upto(v, n - 1) + v.parts[n - 1].nodes
    }
}

/// A weak slot after the nodes of `gone` were taken away.
spec fn slot_voided(slot: WeakSlotView, gone: Seq<GcPtr>) -> WeakSlotView {
    match slot.node {
        Some(p) => if gone.contains(p) {
            WeakSlotView { version: slot.version, node: None }
        } else {
            slot
        },
        None => slot,
    }
}

/// The types, the nodes and the chains of the heap are in order.
spec fn in_order<T>(v: HeapView<T>) -> bool {
    &&& v.reg.wf()
    &&& v.nodes.dom().finite()
    &&& forall|p: GcPtr| #[trigger] v.live(p) ==> v.head(p).dtype < v.reg.infos.len()
    &&& v.chains_ok()
}

/// Giving a heap up takes exactly the nodes in its chains away, with their bytes and their weak
/// references.
pub proof fn law_give_up<T>(v: HeapView<T>)
    requires
        v.wf(),
    ensures
        ({
            let n = v.parts.len() as int;
            let w = v.stacks_closed(v.stacks.len() as int).chains_disposed(n);
            &&& accounted(v) ==> accounted(w)
            &&& weak_follows(v, w, chains_upto(v, n))
            &&& forall|p: GcPtr| #[trigger]
                w.live(p) <==> v.live(p) && !chains_upto(v, n).contains(p)
        }),
{
    let n = v.parts.len() as int;
    let c = v.stacks_closed(v.stacks.len() as int);
    law_stacks_quiet(v, v.stacks.len() as int);
    assert(in_order(c)) by {
        assert forall|p: GcPtr| #[trigger] c.live(p) implies c.head(p).dtype
            < c.reg.infos.len() by {
            assert(v.live(p));
        }
        assert forall|i: int, k: int|
            0 <= i < c.parts.len() && 0 <= k < c.parts[i].nodes.len() implies c.live(
            #[trigger] c.parts[i].nodes[k],
        ) && c.pid(c.parts[i].nodes[k]) == i by {
            assert(v.live(v.parts[i].nodes[k]) && v.pid(v.parts[i].nodes[k]) == i);
        }
    }
    if accounted(v) {
        lemma_same_accounted(v, c);
    }
    lemma_given_up(c, n);
    lemma_chains_same(v, c, n);
}

proof fn lemma_chains_same<T>(v: HeapView<T>, w: HeapView<T>, n: int)
    requires
        w.parts == v.parts,
    ensures
        chains_upto(w, n) == chains_upto(v, n),
    decreases n,
{
    if n > 0 {
        lemma_chains_same(v, w, n - 1);
    }
}

proof fn lemma_chains_grown<T>(v: HeapView<T>, n: int, p: GcPtr)
    requires
        0 < n,
    ensures
        chains_upto(v, n).contains(p) <==> chains_upto(v, n - 1).contains(p) || v.parts[n
            - 1].nodes.contains(p),
{
    let a = chains_upto(v, n - 1);
    let b = v.parts[n - 1].nodes;
    let c = chains_upto(v, n);
    if a.contains(p) {
        let k = choose|k: int| 0 <= k < a.len() && a[k] == p;
        assert(c[k] == p);
    }
    if b.contains(p) {
        let k = choose|k: int| 0 <= k < b.len() && b[k] == p;
        assert(c[a.len() + k] == p);
    }
    if c.contains(p) {
        let k = choose|k: int| 0 <= k < c.len() && c[k] == p;
        if k < a.len() {
            assert(a[k] == p);
        } else {
            assert(b[k - a.len()] == p);
        }
    }
}

/// The nodes in the first chains belong to the first partitions.
proof fn lemma_chains_pid<T>(v: HeapView<T>, n: int, p: GcPtr)
    requires
        in_order(v),
        n <= v.parts.len(),
        chains_upto(v, n).contains(p),
    ensures
        v.live(p),
        v.pid(p) < n,
    decreases n,
{
    if n > 0 {
        lemma_chains_grown(v, n, p);
        let chain = v.parts[n - 1].nodes;
        if chain.contains(p) {
            let k = choose|k: int| 0 <= k < chain.len() && chain[k] == p;
            assert(v.live(v.parts[n - 1].nodes[k]) && v.pid(v.parts[n - 1].nodes[k]) == n - 1);
        } else {
            lemma_chains_pid(v, n - 1, p);
        }
    }
}

/// What is left of a heap of which the first `n` partitions were given up.
proof fn lemma_given_up<T>(v: HeapView<T>, n: int)
    requires
        in_order(v),
        0 <= n <= v.parts.len(),
    ensures
        ({
            let a = v.chains_disposed(n);
            let gone = chains_upto(v, n);
            &&& a.reg == v.reg
            &&& a.nodes.dom().finite()
            &&& a.parts.len() == v.parts.len()
            &&& forall|i: int| n <= i < v.parts.len() ==> #[trigger] a.parts[i] == v.parts[i]
            &&& forall|p: GcPtr| #[trigger] a.live(p) ==> a.nodes[p] == v.nodes[p]
            &&& forall|p: GcPtr| #[trigger] a.live(p) <==> v.live(p) && !gone.contains(p)
            &&& accounted(v) ==> accounted(a)
            &&& a.weak.len() == v.weak.len()
            &&& forall|k: int|
                0 <= k < v.weak.len() ==> #[trigger] a.weak[k] == slot_voided(v.weak[k], gone)
        }),
    decreases n,
{
    if n > 0 {
        let i = n - 1;
        let a = v.chains_disposed(i);
        let b = v.chains_disposed(n);
        let chain = v.parts[i].nodes;
        let before = chains_upto(v, i);
        let after = chains_upto(v, n);
        lemma_given_up(v, i);
        assert(a.parts[i] == v.parts[i]);
        let w = a.with_part(i, PartView { nodes: Seq::empty(), ..a.parts[i] });
        let gone = w.drop_order(chain);
        assert(b == w.disposed(i, gone));
        assert forall|k: int| 0 <= k < chain.len() implies w.live(#[trigger] chain[k]) && w.pid(
            chain[k],
        ) == i && w.head(chain[k]).dtype < w.reg.infos.len() by {
            let p = chain[k];
            assert(v.live(v.parts[i].nodes[k]) && v.pid(v.parts[i].nodes[k]) == i);
            if before.contains(p) {
                lemma_chains_pid(v, i, p);
            }
            assert(a.live(p));
        }
        assert(v.parts[i].nodes.no_duplicates());
        law_drop_order(w, chain);
        assert forall|k: int| 0 <= k < gone.len() implies w.live(#[trigger] gone[k]) && w.pid(
            gone[k],
        ) == i by {
            assert(gone.contains(gone[k]));
            let j = choose|j: int| 0 <= j < chain.len() && chain[j] == gone[k];
            assert(w.live(chain[j]));
        }
        if accounted(v) {
            assert(quiet(a, w));
            lemma_same_accounted(a, w);
            law_dispose_accounted(w, i, gone);
        }
        vstd::set_lib::lemma_len_subset(b.nodes.dom(), a.nodes.dom());
        assert forall|j: int| n <= j < v.parts.len() implies #[trigger] b.parts[j]
            == v.parts[j] by {
            assert(a.parts[j] == v.parts[j]);
        }
        assert forall|p: GcPtr| #[trigger] b.live(p) <==> v.live(p) && !after.contains(p) by {
            assert(gone.to_set().contains(p) <==> gone.contains(p));
            lemma_chains_grown(v, n, p);
            assert(a.live(p) <==> v.live(p) && !before.contains(p));
        }
        assert forall|p: GcPtr| #[trigger] b.live(p) implies b.nodes[p] == v.nodes[p] by {
            assert(a.live(p));
        }
        assert forall|k: int| 0 <= k < v.weak.len() implies #[trigger] b.weak[k] == slot_voided(
            v.weak[k],
            after,
        ) by {
            assert(a.weak[k] == slot_voided(v.weak[k], before));
            if v.weak[k].node is Some {
                lemma_chains_grown(v, n, v.weak[k].node.unwrap());
            }
        }
    }
}

} // verus!
