//! Scopes on the heap model.

use vstd::prelude::*;

use crate::lemmas::{base, lemma_base_wf, node_base, part_frame};
use crate::marking::lemma_gray_added_keeps;
use crate::model::{held, is_place, place, HeapView, ScopeView, StackView};
use crate::node::{GcPartitionId, GcPtr, HeadView};
use crate::table::NodeView;

verus! {

/// Position of the first stack that is not acquired; the number of stacks if there is none.
pub open spec fn first_idle(stacks: Seq<StackView>) -> int
    decreases stacks.len(),
{
    if stacks.len() == 0 {
        0
    } else if stacks[0].partition is None {
        0
    } else {
        1 + first_idle(stacks.drop_first())
    }
}

pub proof fn lemma_first_idle(stacks: Seq<StackView>, i: int)
    requires
        0 <= i <= stacks.len(),
        forall|j: int| 0 <= j < i ==> (#[trigger] stacks[j]).partition is Some,
    ensures
        first_idle(stacks) == i + first_idle(stacks.skip(i)),
    decreases i,
{
    if i == 0 {
        assert(stacks.skip(0) =~= stacks);
    } else {
        lemma_first_idle(stacks, i - 1);
        assert(stacks[i - 1].partition is Some);
        assert(stacks.skip(i - 1)[0] == stacks[i - 1]);
        assert(stacks.skip(i - 1).drop_first() =~= stacks.skip(i));
    }
}

impl<T> HeapView<T> {
    /// There is a stack `s` and it has a scope at position `d`.
    pub open spec fn has_scope(self, s: int, d: int) -> bool {
        0 <= s < self.stacks.len() && 0 <= d < self.stacks[s].scopes.len()
    }

    /// The nodes held by a scope.
    pub open spec fn scope_nodes(self, s: int, d: int) -> Seq<GcPtr> {
        self.stacks[s].scopes[d].nodes
    }

    /// The heap with other nodes in a scope.
    pub open spec fn with_scope(self, s: int, d: int, nodes: Seq<GcPtr>) -> HeapView<T> {
        let stack = self.stacks[s];
        HeapView {
            stacks: self.stacks.update(
                s,
                StackView {
                    scopes: stack.scopes.update(d, ScopeView { nodes, ..stack.scopes[d] }),
                    ..stack
                },
            ),
            ..self
        }
    }

    /// The heap with the scope mark of a node set or cleared.
    pub open spec fn with_local(self, p: GcPtr, local: bool) -> HeapView<T> {
        self.with_head(p, HeadView { local, ..self.head(p) })
    }

    /// The heap after a node was marked as held by a scope for partition `pid`: if that
    /// partition is in a marking cycle, the node goes on its gray list.
    pub open spec fn guarded(self, pid: GcPartitionId, p: GcPtr) -> HeapView<T> {
        let w = self.with_local(p, true);
        if self.has_part(pid) && self.parts[pid.0 as int].marking {
            w.gray_added(pid.0 as int, p)
        } else {
            w
        }
    }

    /// The heap after a node was added to a scope.
    pub open spec fn scope_added(self, s: int, d: int, p: GcPtr) -> HeapView<T> {
        self.guarded(self.stacks[s].scopes[d].partition, p).with_scope(
            s,
            d,
            self.scope_nodes(s, d).push(p),
        )
    }

    /// The nodes of a scope without the one at position `i`, whose place the last one takes.
    pub open spec fn scope_without(self, s: int, d: int, i: int) -> Seq<GcPtr> {
        self.scope_nodes(s, d).update(i, self.scope_nodes(s, d).last()).drop_last()
    }

    /// The heap after the node at position `i` was removed from a scope.
    pub open spec fn scope_removed(self, s: int, d: int, i: int) -> HeapView<T> {
        self.with_local(self.scope_nodes(s, d)[i], false).with_scope(
            s,
            d,
            self.scope_without(s, d, i),
        )
    }

    /// The heap after the node at position `i` of a scope was handed on to another scope.
    pub open spec fn scope_moved(self, s: int, d: int, i: int, s2: int, d2: int) -> HeapView<T> {
        let p = self.scope_nodes(s, d)[i];
        let w = self.with_scope(s, d, self.scope_without(s, d, i));
        w.with_scope(s2, d2, w.scope_nodes(s2, d2).push(p))
    }

    /// The heap with the scope marks of the listed nodes cleared.
    pub open spec fn unguarded(self, list: Seq<GcPtr>) -> HeapView<T> {
        HeapView {
            nodes: Map::new(
                |p: GcPtr| self.live(p),
                |p: GcPtr|
                    if list.contains(p) {
                        NodeView {
                            head: HeadView { local: false, ..self.head(p) },
                            ..self.nodes[p]
                        }
                    } else {
                        self.nodes[p]
                    },
            ),
            ..self
        }
    }

    /// The heap after a scope was emptied.
    pub open spec fn scope_cleared(self, s: int, d: int) -> HeapView<T> {
        self.unguarded(self.scope_nodes(s, d)).with_scope(s, d, Seq::empty())
    }

    /// The heap after a scope was opened on an acquired stack.
    pub open spec fn scope_opened(self, s: int) -> HeapView<T> {
        HeapView {
            stacks: self.stacks.update(
                s,
                StackView {
                    scopes: self.stacks[s].scopes.push(
                        ScopeView {
                            partition: self.stacks[s].partition.unwrap(),
                            nodes: Seq::empty(),
                        },
                    ),
                    ..self.stacks[s]
                },
            ),
            ..self
        }
    }

    /// The heap after the innermost scope of a stack was emptied and taken off.
    pub open spec fn scope_popped(self, s: int) -> HeapView<T> {
        let d = self.stacks[s].scopes.len() - 1;
        let w = self.scope_cleared(s, d);
        HeapView {
            stacks: w.stacks.update(
                s,
                StackView { scopes: w.stacks[s].scopes.drop_last(), ..w.stacks[s] },
            ),
            ..w
        }
    }
}

/// A changed heap whose chains are those of the old one is in order but for its scopes.
proof fn lemma_chains_same<T>(v: HeapView<T>, w: HeapView<T>)
    requires
        v.wf(),
        base(v, w),
        forall|i: int| 0 <= i < v.parts.len() ==> (#[trigger] w.parts[i]).nodes == v.parts[i].nodes,
    ensures
        w.chains_ok(),
{
    assert forall|i: int| 0 <= i < w.parts.len() implies (
    #[trigger] w.parts[i]).nodes.no_duplicates() by {
        assert(v.parts[i].nodes.no_duplicates());
    }
    assert forall|i: int, k: int|
        0 <= i < w.parts.len() && 0 <= k < w.parts[i].nodes.len() implies w.live(
        #[trigger] w.parts[i].nodes[k],
    ) && w.pid(w.parts[i].nodes[k]) == i by {
        assert(w.parts[i].nodes == v.parts[i].nodes);
        assert(v.live(v.parts[i].nodes[k]) && v.pid(v.parts[i].nodes[k]) == i);
    }
}

/// A node held by a scope is marked as such.
pub proof fn lemma_held_local<T>(v: HeapView<T>, p: GcPtr)
    requires
        v.scopes_ok(),
        held(v.stacks, p),
    ensures
        v.live(p),
        v.head(p).local,
{
    let (s, d, i) = choose|s: int, d: int, i: int|
        is_place(v.stacks, s, d, i) && #[trigger] place(v.stacks, s, d, i) == p;
    assert(v.live(place(v.stacks, s, d, i)));
}

/// The invariant survives adding a node that is not local to a scope.
pub proof fn lemma_scope_added_wf<T>(v: HeapView<T>, s: int, d: int, p: GcPtr)
    requires
        v.wf(),
        v.has_scope(s, d),
        v.live(p),
        !v.head(p).local,
    ensures
        v.scope_added(s, d, p).wf(),
{
    let pid = v.stacks[s].scopes[d].partition;
    let l = v.with_local(p, true);
    let g = v.guarded(pid, p);
    let w = v.scope_added(s, d, p);
    if v.has_part(pid) && v.parts[pid.0 as int].marking {
        lemma_gray_added_keeps(l, pid.0 as int, p);
    }
    assert(l.nodes.dom() =~= v.nodes.dom());
    assert(g.nodes.dom() == v.nodes.dom());
    assert forall|q: GcPtr| #[trigger] v.live(q) implies node_base(v.nodes[q], w.nodes[q])
        && w.head(q).local == (v.head(q).local || q == p) by {
        assert(l.live(q));
    }
    assert forall|i: int| 0 <= i < v.parts.len() implies part_frame(
        v.parts[i],
        #[trigger] w.parts[i],
    ) && w.parts[i].nodes == v.parts[i].nodes by {
        assert(part_frame(l.parts[i], g.parts[i]));
    }
    lemma_chains_same(v, w);
    let n = v.scope_nodes(s, d).len() as int;
    assert forall|a: int, b: int, c: int| is_place(w.stacks, a, b, c) implies (if a == s && b == d
        && c == n {
        #[trigger] place(w.stacks, a, b, c) == p
    } else {
        is_place(v.stacks, a, b, c) && place(w.stacks, a, b, c) == place(v.stacks, a, b, c)
    }) by {}
    assert(w.scopes_ok()) by {
        assert forall|a: int, b: int, c: int| is_place(w.stacks, a, b, c) implies w.live(
            #[trigger] place(w.stacks, a, b, c),
        ) && w.head(place(w.stacks, a, b, c)).local by {
            if !(a == s && b == d && c == n) {
                assert(v.live(place(v.stacks, a, b, c)));
            }
        }
        assert forall|a: int, b: int, c: int, a2: int, b2: int, c2: int|
            is_place(w.stacks, a, b, c) && is_place(w.stacks, a2, b2, c2) && #[trigger] place(
                w.stacks,
                a,
                b,
                c,
            ) == #[trigger] place(w.stacks, a2, b2, c2) implies a == a2 && b == b2 && c == c2 by {
            let new1 = a == s && b == d && c == n;
            let new2 = a2 == s && b2 == d && c2 == n;
            if !new1 {
                assert(v.head(place(v.stacks, a, b, c)).local);
            }
            if !new2 {
                assert(v.head(place(v.stacks, a2, b2, c2)).local);
            }
        }
        assert forall|a: int| 0 <= a < w.stacks.len() && (
        #[trigger] w.stacks[a]).partition is None implies w.stacks[a].scopes.len() == 0 by {
            assert(v.stacks[a].partition is None ==> v.stacks[a].scopes.len() == 0);
        }
    }
    lemma_base_wf(v, w);
}

/// The invariant survives removing a node from a scope.
pub proof fn lemma_scope_removed_wf<T>(v: HeapView<T>, s: int, d: int, i: int)
    requires
        v.wf(),
        v.has_scope(s, d),
        0 <= i < v.scope_nodes(s, d).len(),
    ensures
        v.scope_removed(s, d, i).wf(),
{
    let p = v.scope_nodes(s, d)[i];
    let n = v.scope_nodes(s, d).len() as int;
    let w = v.scope_removed(s, d, i);
    assert(place(v.stacks, s, d, i) == p);
    assert(is_place(v.stacks, s, d, i));
    assert(v.live(p));
    assert(w.nodes.dom() =~= v.nodes.dom());
    lemma_chains_same(v, w);
    assert forall|a: int, b: int, c: int| is_place(w.stacks, a, b, c) implies {
        let o = if a == s && b == d && c == i {
            n - 1
        } else {
            c
        };
        &&& is_place(v.stacks, a, b, o)
        &&& #[trigger] place(w.stacks, a, b, c) == place(v.stacks, a, b, o)
        &&& !(a == s && b == d && o == i)
    } by {}
    assert(w.scopes_ok()) by {
        assert forall|a: int, b: int, c: int| is_place(w.stacks, a, b, c) implies w.live(
            #[trigger] place(w.stacks, a, b, c),
        ) && w.head(place(w.stacks, a, b, c)).local by {
            let o = if a == s && b == d && c == i {
                n - 1
            } else {
                c
            };
            assert(v.live(place(v.stacks, a, b, o)));
            assert(place(v.stacks, a, b, o) != place(v.stacks, s, d, i));
        }
        assert forall|a: int, b: int, c: int, a2: int, b2: int, c2: int|
            is_place(w.stacks, a, b, c) && is_place(w.stacks, a2, b2, c2) && #[trigger] place(
                w.stacks,
                a,
                b,
                c,
            ) == #[trigger] place(w.stacks, a2, b2, c2) implies a == a2 && b == b2 && c == c2 by {
            let o = if a == s && b == d && c == i {
                n - 1
            } else {
                c
            };
            let o2 = if a2 == s && b2 == d && c2 == i {
                n - 1
            } else {
                c2
            };
            assert(place(v.stacks, a, b, o) == place(v.stacks, a2, b2, o2));
        }
        assert forall|a: int| 0 <= a < w.stacks.len() && (
        #[trigger] w.stacks[a]).partition is None implies w.stacks[a].scopes.len() == 0 by {
            assert(v.stacks[a].partition is None ==> v.stacks[a].scopes.len() == 0);
        }
    }
    lemma_base_wf(v, w);
}

/// The invariant survives handing a node on to another scope.
pub proof fn lemma_scope_moved_wf<T>(v: HeapView<T>, s: int, d: int, i: int, s2: int, d2: int)
    requires
        v.wf(),
        v.has_scope(s, d),
        v.has_scope(s2, d2),
        0 <= i < v.scope_nodes(s, d).len(),
    ensures
        v.scope_moved(s, d, i, s2, d2).wf(),
{
    let p = v.scope_nodes(s, d)[i];
    let r = v.scope_removed(s, d, i);
    let w = v.scope_moved(s, d, i, s2, d2);
    lemma_scope_removed_wf(v, s, d, i);
    assert(is_place(v.stacks, s, d, i));
    assert(v.live(place(v.stacks, s, d, i)) && v.head(place(v.stacks, s, d, i)).local);
    // Taking the node out and adding it anew differs from handing it on in marks only.
    let n2 = r.scope_nodes(s2, d2).len() as int;
    assert(w.nodes == v.nodes);
    assert(w.nodes.dom() =~= r.nodes.dom());
    assert forall|q: GcPtr| #[trigger] r.live(q) implies node_base(r.nodes[q], w.nodes[q])
        && w.head(q).local == (r.head(q).local || q == p) by {}
    lemma_chains_same(r, w);
    assert forall|a: int, b: int, c: int| is_place(w.stacks, a, b, c) implies (if a == s2 && b
        == d2 && c == n2 {
        #[trigger] place(w.stacks, a, b, c) == p
    } else {
        is_place(r.stacks, a, b, c) && place(w.stacks, a, b, c) == place(r.stacks, a, b, c)
    }) by {}
    assert(w.scopes_ok()) by {
        assert forall|a: int, b: int, c: int| is_place(w.stacks, a, b, c) implies w.live(
            #[trigger] place(w.stacks, a, b, c),
        ) && w.head(place(w.stacks, a, b, c)).local by {
            if !(a == s2 && b == d2 && c == n2) {
                assert(r.live(place(r.stacks, a, b, c)));
            }
        }
        assert forall|a: int, b: int, c: int, a2: int, b2: int, c2: int|
            is_place(w.stacks, a, b, c) && is_place(w.stacks, a2, b2, c2) && #[trigger] place(
                w.stacks,
                a,
                b,
                c,
            ) == #[trigger] place(w.stacks, a2, b2, c2) implies a == a2 && b == b2 && c == c2 by {
            let new1 = a == s2 && b == d2 && c == n2;
            let new2 = a2 == s2 && b2 == d2 && c2 == n2;
            if !new1 {
                assert(r.head(place(r.stacks, a, b, c)).local);
            }
            if !new2 {
                assert(r.head(place(r.stacks, a2, b2, c2)).local);
            }
        }
        assert forall|a: int| 0 <= a < w.stacks.len() && (
        #[trigger] w.stacks[a]).partition is None implies w.stacks[a].scopes.len() == 0 by {
            assert(v.stacks[a].partition is None ==> v.stacks[a].scopes.len() == 0);
        }
    }
    lemma_base_wf(r, w);
}

/// The invariant survives emptying a scope.
pub proof fn lemma_scope_cleared_wf<T>(v: HeapView<T>, s: int, d: int)
    requires
        v.wf(),
        v.has_scope(s, d),
    ensures
        v.scope_cleared(s, d).wf(),
{
    let list = v.scope_nodes(s, d);
    let w = v.scope_cleared(s, d);
    assert(w.nodes.dom() =~= v.nodes.dom());
    lemma_chains_same(v, w);
    assert forall|a: int, b: int, c: int| is_place(w.stacks, a, b, c) implies {
        &&& is_place(v.stacks, a, b, c)
        &&& #[trigger] place(w.stacks, a, b, c) == place(v.stacks, a, b, c)
        &&& !(a == s && b == d)
    } by {}
    assert(w.scopes_ok()) by {
        assert forall|a: int, b: int, c: int| is_place(w.stacks, a, b, c) implies w.live(
            #[trigger] place(w.stacks, a, b, c),
        ) && w.head(place(w.stacks, a, b, c)).local by {
            let q = place(v.stacks, a, b, c);
            assert(v.live(q));
            if list.contains(q) {
                let k = choose|k: int| 0 <= k < list.len() && list[k] == q;
                assert(is_place(v.stacks, s, d, k));
                assert(place(v.stacks, s, d, k) == place(v.stacks, a, b, c));
            }
        }
        assert forall|a: int, b: int, c: int, a2: int, b2: int, c2: int|
            is_place(w.stacks, a, b, c) && is_place(w.stacks, a2, b2, c2) && #[trigger] place(
                w.stacks,
                a,
                b,
                c,
            ) == #[trigger] place(w.stacks, a2, b2, c2) implies a == a2 && b == b2 && c == c2 by {
            assert(place(v.stacks, a, b, c) == place(v.stacks, a2, b2, c2));
        }
        assert forall|a: int| 0 <= a < w.stacks.len() && (
        #[trigger] w.stacks[a]).partition is None implies w.stacks[a].scopes.len() == 0 by {
            assert(v.stacks[a].partition is None ==> v.stacks[a].scopes.len() == 0);
        }
    }
    lemma_base_wf(v, w);
}

/// The invariant survives changes of the stacks that keep every place where it was.
pub proof fn lemma_stacks_wf<T>(v: HeapView<T>, w: HeapView<T>)
    requires
        v.wf(),
        w == (HeapView { stacks: w.stacks, ..v }),
        forall|a: int, b: int, c: int| #[trigger]
            is_place(w.stacks, a, b, c) ==> is_place(v.stacks, a, b, c) && place(
                w.stacks,
                a,
                b,
                c,
            ) == place(v.stacks, a, b, c),
        forall|a: int|
            0 <= a < w.stacks.len() && (#[trigger] w.stacks[a]).partition is None
                ==> w.stacks[a].scopes.len() == 0,
    ensures
        w.wf(),
{
    lemma_chains_same(v, w);
    assert(w.scopes_ok()) by {
        assert forall|a: int, b: int, c: int| is_place(w.stacks, a, b, c) implies w.live(
            #[trigger] place(w.stacks, a, b, c),
        ) && w.head(place(w.stacks, a, b, c)).local by {
            assert(v.live(place(v.stacks, a, b, c)));
        }
        assert forall|a: int, b: int, c: int, a2: int, b2: int, c2: int|
            is_place(w.stacks, a, b, c) && is_place(w.stacks, a2, b2, c2) && #[trigger] place(
                w.stacks,
                a,
                b,
                c,
            ) == #[trigger] place(w.stacks, a2, b2, c2) implies a == a2 && b == b2 && c == c2 by {
            assert(place(v.stacks, a, b, c) == place(v.stacks, a2, b2, c2));
        }
    }
    lemma_base_wf(v, w);
}

} // verus!
