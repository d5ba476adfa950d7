//! Reachability.

use vstd::prelude::*;

use crate::marking::refs_of;
use crate::model::HeapView;
use crate::node::GcPtr;
use crate::trace::GcTrace;

verus! {

/// A path: live nodes that satisfy `ok`, each of them referred to by its predecessor.
pub open spec fn is_path<T: GcTrace>(
    v: HeapView<T>,
    ok: spec_fn(GcPtr) -> bool,
    path: Seq<GcPtr>,
) -> bool {
    &&& path.len() > 0
    &&& forall|i: int| 0 <= i < path.len() ==> v.live(#[trigger] path[i]) && ok(path[i])
    &&& forall|i: int|
        #![trigger path[i + 1]]
        0 <= i < path.len() - 1 ==> refs_of(v, path[i]).contains(path[i + 1])
}

/// There is a path from `a` to `b`.
pub open spec fn reaches<T: GcTrace>(
    v: HeapView<T>,
    ok: spec_fn(GcPtr) -> bool,
    a: GcPtr,
    b: GcPtr,
) -> bool {
    exists|path: Seq<GcPtr>| #[trigger]
        is_path(v, ok, path) && path[0] == a && path.last() == b
}

/// The node belongs to partition `pid`.
pub open spec fn within<T>(v: HeapView<T>, pid: int) -> spec_fn(GcPtr) -> bool {
    |p: GcPtr| v.pid(p) == pid
}

/// A node that a root of partition `pid`, or a node of it that a scope holds, reaches inside the
/// partition.
pub open spec fn reachable<T: GcTrace>(v: HeapView<T>, pid: int, p: GcPtr) -> bool {
    exists|root: GcPtr|
        v.live(root) && v.pid(root) == pid && v.pinned(root) && #[trigger] reaches(
            v,
            within(v, pid),
            root,
            p,
        )
}

/// Every node will do.
pub open spec fn anywhere() -> spec_fn(GcPtr) -> bool {
    |p: GcPtr| true
}

/// A node that some root, or some node held by a scope, reaches, through whatever partitions.
pub open spec fn reachable_any<T: GcTrace>(v: HeapView<T>, p: GcPtr) -> bool {
    exists|root: GcPtr|
        v.live(root) && v.pinned(root) && #[trigger] reaches(v, anywhere(), root, p)
}

/// Two heaps have the same nodes in the same partitions, with the same payloads, the same roots
/// and the same nodes held by scopes.
pub open spec fn same_graph<T>(v: HeapView<T>, w: HeapView<T>) -> bool {
    &&& w.nodes.dom() == v.nodes.dom()
    &&& forall|p: GcPtr| #[trigger]
        v.live(p) ==> w.nodes[p].payload == v.nodes[p].payload && w.pid(p) == v.pid(p) && w.pinned(p)
            == v.pinned(p)
}

/// A live node that satisfies `ok` reaches itself.
pub proof fn lemma_reaches_self<T: GcTrace>(v: HeapView<T>, ok: spec_fn(GcPtr) -> bool, a: GcPtr)
    requires
        v.live(a),
        ok(a),
    ensures
        reaches(v, ok, a, a),
{
    let path = seq![a];
    assert(is_path(v, ok, path));
}

/// What is reached reaches on along its references.
pub proof fn lemma_reaches_step<T: GcTrace>(
    v: HeapView<T>,
    ok: spec_fn(GcPtr) -> bool,
    a: GcPtr,
    b: GcPtr,
    c: GcPtr,
)
    requires
        reaches(v, ok, a, b),
        refs_of(v, b).contains(c),
        v.live(c),
        ok(c),
    ensures
        reaches(v, ok, a, c),
{
    let path = choose|path: Seq<GcPtr>| #[trigger]
        is_path(v, ok, path) && path[0] == a && path.last() == b;
    let longer = path.push(c);
    assert forall|i: int| 0 <= i < longer.len() implies v.live(#[trigger] longer[i]) && ok(
        longer[i],
    ) by {
        if i < path.len() {
            assert(longer[i] == path[i]);
        }
    }
    assert forall|i: int| #![trigger longer[i + 1]] 0 <= i < longer.len() - 1 implies refs_of(
        v,
        longer[i],
    ).contains(longer[i + 1]) by {
        if i < path.len() - 1 {
            assert(longer[i + 1] == path[i + 1]);
            assert(longer[i] == path[i]);
        }
    }
    assert(is_path(v, ok, longer));
    assert(longer[0] == a);
}

/// Reachability depends on nothing but what `same_graph` speaks of.
pub proof fn lemma_reachable_same<T: GcTrace>(v: HeapView<T>, w: HeapView<T>, pid: int, p: GcPtr)
    requires
        same_graph(v, w),
        reachable(v, pid, p),
    ensures
        reachable(w, pid, p),
{
    let root = choose|root: GcPtr|
        v.live(root) && v.pid(root) == pid && v.pinned(root) && #[trigger] reaches(
            v,
            within(v, pid),
            root,
            p,
        );
    let path = choose|path: Seq<GcPtr>| #[trigger]
        is_path(v, within(v, pid), path) && path[0] == root && path.last() == p;
    assert(is_path(w, within(w, pid), path)) by {
        assert forall|i: int| 0 <= i < path.len() implies w.live(#[trigger] path[i]) && within(
            w,
            pid,
        )(path[i]) by {
            assert(v.live(path[i]) && within(v, pid)(path[i]));
        }
        assert forall|i: int| #![trigger path[i + 1]] 0 <= i < path.len() - 1 implies refs_of(
            w,
            path[i],
        ).contains(path[i + 1]) by {
            assert(v.live(path[i]));
            assert(refs_of(v, path[i]).contains(path[i + 1]));
        }
    }
    assert(v.live(root));
    assert(reaches(w, within(w, pid), root, p));
}

/// A root, and a node held by a scope, is reachable.
pub proof fn lemma_reachable_root<T: GcTrace>(v: HeapView<T>, pid: int, p: GcPtr)
    requires
        v.live(p),
        v.pid(p) == pid,
        v.pinned(p),
    ensures
        reachable(v, pid, p),
{
    lemma_reaches_self(v, within(v, pid), p);
}

/// What a reachable node refers to is reachable, inside the partition.
pub proof fn lemma_reachable_step<T: GcTrace>(v: HeapView<T>, pid: int, p: GcPtr, q: GcPtr)
    requires
        reachable(v, pid, p),
        refs_of(v, p).contains(q),
        v.live(q),
        v.pid(q) == pid,
    ensures
        reachable(v, pid, q),
{
    let root = choose|root: GcPtr|
        v.live(root) && v.pid(root) == pid && v.pinned(root) && #[trigger] reaches(
            v,
            within(v, pid),
            root,
            p,
        );
    lemma_reaches_step(v, within(v, pid), root, p, q);
}

/// Reachability depends on nothing but what `same_graph` speaks of.
pub proof fn lemma_any_same<T: GcTrace>(v: HeapView<T>, w: HeapView<T>, p: GcPtr)
    requires
        same_graph(v, w),
        reachable_any(v, p),
    ensures
        reachable_any(w, p),
{
    let root = choose|root: GcPtr|
        v.live(root) && v.pinned(root) && #[trigger] reaches(v, anywhere(), root, p);
    let path = choose|path: Seq<GcPtr>| #[trigger]
        is_path(v, anywhere(), path) && path[0] == root && path.last() == p;
    assert(is_path(w, anywhere(), path)) by {
        assert forall|i: int| 0 <= i < path.len() implies w.live(#[trigger] path[i]) by {
            assert(v.live(path[i]));
        }
        assert forall|i: int| #![trigger path[i + 1]] 0 <= i < path.len() - 1 implies refs_of(
            w,
            path[i],
        ).contains(path[i + 1]) by {
            assert(v.live(path[i]));
            assert(refs_of(v, path[i]).contains(path[i + 1]));
        }
    }
    assert(v.live(root));
    assert(reaches(w, anywhere(), root, p));
}

/// What is reachable is live.
pub proof fn lemma_any_live<T: GcTrace>(v: HeapView<T>, p: GcPtr)
    requires
        reachable_any(v, p),
    ensures
        v.live(p),
{
    let root = choose|root: GcPtr|
        v.live(root) && v.pinned(root) && #[trigger] reaches(v, anywhere(), root, p);
    let path = choose|path: Seq<GcPtr>| #[trigger]
        is_path(v, anywhere(), path) && path[0] == root && path.last() == p;
    assert(v.live(path[path.len() - 1]));
}

/// A root, and a node held by a scope, is reachable.
pub proof fn lemma_any_root<T: GcTrace>(v: HeapView<T>, p: GcPtr)
    requires
        v.live(p),
        v.pinned(p),
    ensures
        reachable_any(v, p),
{
    lemma_reaches_self(v, anywhere(), p);
}

/// What a reachable node refers to is reachable.
pub proof fn lemma_any_step<T: GcTrace>(v: HeapView<T>, p: GcPtr, q: GcPtr)
    requires
        reachable_any(v, p),
        refs_of(v, p).contains(q),
        v.live(q),
    ensures
        reachable_any(v, q),
{
    let root = choose|root: GcPtr|
        v.live(root) && v.pinned(root) && #[trigger] reaches(v, anywhere(), root, p);
    lemma_reaches_step(v, anywhere(), root, p, q);
}

/// A property that holds of `a` and is handed on along references holds of all that `a` reaches.
pub proof fn lemma_reaches_induct<T: GcTrace>(
    v: HeapView<T>,
    ok: spec_fn(GcPtr) -> bool,
    a: GcPtr,
    b: GcPtr,
    inv: spec_fn(GcPtr) -> bool,
)
    requires
        reaches(v, ok, a, b),
        inv(a),
        forall|x: GcPtr, y: GcPtr|
            v.live(x) && ok(x) && inv(x) && v.live(y) && ok(y) && #[trigger] refs_of(v, x).contains(
                y,
            ) ==> #[trigger] inv(y),
    ensures
        inv(b),
{
    let path = choose|path: Seq<GcPtr>| #[trigger]
        is_path(v, ok, path) && path[0] == a && path.last() == b;
    lemma_path_induct(v, ok, path, path.len() - 1, inv);
}

proof fn lemma_path_induct<T: GcTrace>(
    v: HeapView<T>,
    ok: spec_fn(GcPtr) -> bool,
    path: Seq<GcPtr>,
    i: int,
    inv: spec_fn(GcPtr) -> bool,
)
    requires
        is_path(v, ok, path),
        0 <= i < path.len(),
        inv(path[0]),
        forall|x: GcPtr, y: GcPtr|
            v.live(x) && ok(x) && inv(x) && v.live(y) && ok(y) && #[trigger] refs_of(v, x).contains(
                y,
            ) ==> #[trigger] inv(y),
    ensures
        inv(path[i]),
    decreases i,
{
    if i > 0 {
        lemma_path_induct(v, ok, path, i - 1, inv);
        assert(refs_of(v, path[i - 1]).contains(path[i - 1 + 1]));
        assert(v.live(path[i]) && ok(path[i]));
        assert(v.live(path[i - 1]) && ok(path[i - 1]));
        assert(inv(path[i]));
    }
}

} // verus!
