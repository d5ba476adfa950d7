//! Scopes: what they hold and what they let go.

use vstd::prelude::*;

use crate::model::{held, is_place, place, HeapView};
use crate::node::GcPtr;

verus! {

/// Outside of a marking cycle, taking a node out of a scope undoes adding it.
pub proof fn law_scope_add_remove<T>(v: HeapView<T>, s: int, d: int, p: GcPtr)
    requires
        v.has_scope(s, d),
        v.live(p),
        !v.head(p).local,
        !(v.has_part(v.stacks[s].scopes[d].partition)
            && v.parts[v.stacks[s].scopes[d].partition.0 as int].marking),
    ensures
        v.scope_added(s, d, p).head(p).local,
        v.scope_added(s, d, p).scope_removed(s, d, v.scope_nodes(s, d).len() as int) == v,
{
    let n = v.scope_nodes(s, d).len() as int;
    let a = v.scope_added(s, d, p);
    let r = a.scope_removed(s, d, n);
    assert(a.scope_nodes(s, d)[n] == p);
    assert(a.scope_without(s, d, n) =~= v.scope_nodes(s, d));
    assert(r.nodes =~= v.nodes);
    assert(r.stacks[s].scopes =~= v.stacks[s].scopes);
    assert(r.stacks =~= v.stacks);
    assert(r =~= v);
}

/// An emptied scope holds nothing, and the nodes it held are not local any more. All other nodes
/// and scopes stay as they were.
pub proof fn law_scope_clear<T>(v: HeapView<T>, s: int, d: int)
    requires
        v.wf(),
        v.has_scope(s, d),
    ensures
        v.scope_cleared(s, d).scope_nodes(s, d).len() == 0,
        forall|p: GcPtr| #[trigger]
            v.scope_nodes(s, d).contains(p) ==> !v.scope_cleared(s, d).head(p).local && !held(
                v.scope_cleared(s, d).stacks,
                p,
            ),
        forall|p: GcPtr|
            v.live(p) && !v.scope_nodes(s, d).contains(p) ==> #[trigger] v.scope_cleared(
                s,
                d,
            ).nodes[p] == v.nodes[p],
        forall|a: int, b: int|
            v.has_scope(a, b) && (a != s || b != d) ==> #[trigger] v.scope_cleared(s, d).scope_nodes(
                a,
                b,
            ) == v.scope_nodes(a, b),
{
    let w = v.scope_cleared(s, d);
    let list = v.scope_nodes(s, d);
    assert forall|p: GcPtr| #[trigger] list.contains(p) implies !w.head(p).local && !held(
        w.stacks,
        p,
    ) by {
        let k = choose|k: int| 0 <= k < list.len() && list[k] == p;
        assert(is_place(v.stacks, s, d, k) && place(v.stacks, s, d, k) == p);
        assert(v.live(place(v.stacks, s, d, k)));
        if held(w.stacks, p) {
            let (a, b, c) = choose|a: int, b: int, c: int|
                is_place(w.stacks, a, b, c) && #[trigger] place(w.stacks, a, b, c) == p;
            assert(is_place(v.stacks, a, b, c));
            assert(place(v.stacks, a, b, c) == place(v.stacks, s, d, k));
        }
    }
}

/// Handing a node on to another scope keeps it held: the same nodes are held before and after,
/// and no header changes.
pub proof fn law_scope_promote<T>(v: HeapView<T>, s: int, d: int, i: int, s2: int, d2: int)
    requires
        v.has_scope(s, d),
        v.has_scope(s2, d2),
        0 <= i < v.scope_nodes(s, d).len(),
    ensures
        v.scope_moved(s, d, i, s2, d2).nodes == v.nodes,
        v.scope_moved(s, d, i, s2, d2).scope_nodes(s2, d2).contains(v.scope_nodes(s, d)[i]),
        forall|p: GcPtr| #[trigger]
            held(v.scope_moved(s, d, i, s2, d2).stacks, p) <==> held(v.stacks, p),
{
    let p = v.scope_nodes(s, d)[i];
    let n = v.scope_nodes(s, d).len() as int;
    let m = v.with_scope(s, d, v.scope_without(s, d, i));
    let w = v.scope_moved(s, d, i, s2, d2);
    let n2 = m.scope_nodes(s2, d2).len() as int;
    assert(w.scope_nodes(s2, d2)[n2] == p);
    assert forall|q: GcPtr| #[trigger] held(w.stacks, q) <==> held(v.stacks, q) by {
        if held(w.stacks, q) {
            let (a, b, c) = choose|a: int, b: int, c: int|
                is_place(w.stacks, a, b, c) && #[trigger] place(w.stacks, a, b, c) == q;
            if a == s2 && b == d2 && c == n2 {
                assert(is_place(v.stacks, s, d, i) && place(v.stacks, s, d, i) == q);
            } else if a == s && b == d && c == i {
                assert(is_place(v.stacks, s, d, n - 1) && place(v.stacks, s, d, n - 1) == q);
            } else {
                assert(is_place(v.stacks, a, b, c) && place(v.stacks, a, b, c) == q);
            }
        }
        if held(v.stacks, q) {
            let (a, b, c) = choose|a: int, b: int, c: int|
                is_place(v.stacks, a, b, c) && #[trigger] place(v.stacks, a, b, c) == q;
            if a == s && b == d && c == i {
                assert(is_place(w.stacks, s2, d2, n2) && place(w.stacks, s2, d2, n2) == q);
            } else if a == s && b == d && c == n - 1 {
                assert(is_place(w.stacks, s, d, i) && place(w.stacks, s, d, i) == q);
            } else {
                assert(is_place(w.stacks, a, b, c) && place(w.stacks, a, b, c) == q);
            }
        }
    }
}

/// Scopes close in the reverse order of their opening: closing the innermost scope right after
/// opening it gives the heap back as it was.
pub proof fn law_scope_open_close<T>(v: HeapView<T>, s: int)
    requires
        0 <= s < v.stacks.len(),
    ensures
        v.scope_opened(s).scope_popped(s) == v,
{
    let w = v.scope_opened(s).scope_popped(s);
    assert(w.nodes =~= v.nodes);
    assert(w.stacks[s].scopes =~= v.stacks[s].scopes);
    assert(w.stacks =~= v.stacks);
    assert(w =~= v);
}

/// Scope stacks are independent: closing a scope of one leaves the scopes of every other alone,
/// and what they hold stays local.
pub proof fn law_stacks_independent<T>(v: HeapView<T>, s: int, other: int, d: int, i: int)
    requires
        v.wf(),
        0 <= s < v.stacks.len(),
        v.stacks[s].scopes.len() > 0,
        other != s,
        is_place(v.stacks, other, d, i),
    ensures
        v.scope_popped(s).stacks[other] == v.stacks[other],
        v.scope_popped(s).head(place(v.stacks, other, d, i)).local,
        v.scope_popped(s).nodes[place(v.stacks, other, d, i)] == v.nodes[place(
            v.stacks,
            other,
            d,
            i,
        )],
{
    let p = place(v.stacks, other, d, i);
    assert(v.live(p) && v.head(p).local);
    let last = v.stacks[s].scopes.len() - 1;
    let list = v.scope_nodes(s, last);
    if list.contains(p) {
        let k = choose|k: int| 0 <= k < list.len() && list[k] == p;
        assert(is_place(v.stacks, s, last, k));
        assert(place(v.stacks, s, last, k) == place(v.stacks, other, d, i));
    }
}

} // verus!
