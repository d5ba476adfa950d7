//! What a traversal visits.

use vstd::prelude::*;

use crate::laws::reach::{lemma_reaches_induct, lemma_reaches_self, lemma_reaches_step, reaches};
use crate::lemmas::lemma_filter_members;
use crate::marking::{kids_of, lemma_kids_distinct, refs_of};
use crate::model::HeapView;
use crate::node::{GcPartitionId, GcPtr, HeadView};
use crate::table::NodeView;
use crate::trace::GcTrace;
use crate::walking::{lemma_visited_less, next_visits, walk, Visit};

verus! {

/// The node is not marked as visited.
pub open spec fn unmarked<T>(v: HeapView<T>) -> spec_fn(GcPtr) -> bool {
    |p: GcPtr| !v.head(p).visited
}

/// A node of the pending visits reaches `p` through nodes that are not visited.
pub open spec fn pending<T: GcTrace>(v: HeapView<T>, stack: Seq<Visit>, p: GcPtr) -> bool {
    exists|k: int|
        0 <= k < stack.len() && #[trigger] reaches(v, unmarked(v), stack[k].0, p)
}

proof fn lemma_reaches_ends<T: GcTrace>(
    v: HeapView<T>,
    ok: spec_fn(GcPtr) -> bool,
    a: GcPtr,
    b: GcPtr,
)
    requires
        reaches(v, ok, a, b),
    ensures
        v.live(a) && ok(a),
        v.live(b) && ok(b),
{
    let path = choose|path: Seq<GcPtr>| #[trigger]
        crate::laws::reach::is_path(v, ok, path) && path[0] == a && path.last() == b;
    assert(v.live(path[0]) && ok(path[0]));
    assert(v.live(path[path.len() - 1]) && ok(path[path.len() - 1]));
}

/// Visiting a node takes just that node out of what is pending.
proof fn lemma_pending_visit<T: GcTrace>(v: HeapView<T>, stack: Seq<Visit>, q: GcPtr)
    requires
        stack.len() > 0,
        v.unvisited(stack.last().0),
    ensures
        ({
            let p = stack.last().0;
            let w = v.with_visited(p);
            pending(v, stack, q) <==> q == p || pending(
                w,
                stack.drop_last() + next_visits(w, p),
                q,
            )
        }),
{
    let p = stack.last().0;
    let w = v.with_visited(p);
    let rest = stack.drop_last();
    let kids = kids_of(w, p).reverse().filter(|c: GcPtr| w.unvisited(c));
    let more = rest + next_visits(w, p);
    let n = stack.len() - 1;
    assert(w.nodes.dom() =~= v.nodes.dom());
    assert(stack[n].0 == p);
    lemma_reaches_self(v, unmarked(v), p);
    lemma_kids_distinct(w, p);
    lemma_filter_members(kids_of(w, p).reverse(), |c: GcPtr| w.unvisited(c));
    assert(refs_of(w, p) == refs_of(v, p));
    assert forall|c: GcPtr| refs_of(w, p).contains(c) && #[trigger] w.unvisited(
        c,
    ) implies kids.contains(c) by {
        let all = kids_of(w, p);
        assert(all.contains(c));
        let k = choose|k: int| 0 <= k < all.len() && all[k] == c;
        assert(all.reverse()[all.len() - 1 - k] == c);
    }
    if pending(v, stack, q) {
        let k = choose|k: int|
            0 <= k < stack.len() && #[trigger] reaches(v, unmarked(v), stack[k].0, q);
        let start = stack[k].0;
        let inv = |x: GcPtr| x == p || pending(w, more, x);
        lemma_reaches_ends(v, unmarked(v), start, q);
        assert(inv(start)) by {
            if start != p {
                assert(rest[k] == stack[k]);
                assert(more[k] == stack[k]);
                lemma_reaches_self(w, unmarked(w), start);
                assert(reaches(w, unmarked(w), more[k].0, start));
            }
        }
        assert forall|x: GcPtr, y: GcPtr|
            v.live(x) && unmarked(v)(x) && inv(x) && v.live(y) && unmarked(v)(y)
                && #[trigger] refs_of(v, x).contains(y) implies #[trigger] inv(y) by {
            if y != p {
                assert(w.unvisited(y));
                if x == p {
                    assert(kids.contains(y));
                    let j = choose|j: int| 0 <= j < kids.len() && kids[j] == y;
                    assert(next_visits(w, p)[j].0 == y);
                    assert(more[rest.len() + j].0 == y);
                    lemma_reaches_self(w, unmarked(w), y);
                    assert(reaches(w, unmarked(w), more[rest.len() + j].0, y));
                } else {
                    let j = choose|j: int|
                        0 <= j < more.len() && #[trigger] reaches(w, unmarked(w), more[j].0, x);
                    assert(refs_of(w, x) == refs_of(v, x));
                    lemma_reaches_step(w, unmarked(w), more[j].0, x, y);
                }
            }
        }
        lemma_reaches_induct(v, unmarked(v), start, q, inv);
    }
    if q == p {
        assert(reaches(v, unmarked(v), stack[n].0, q));
    }
    if pending(w, more, q) {
        let j = choose|j: int|
            0 <= j < more.len() && #[trigger] reaches(w, unmarked(w), more[j].0, q);
        let start = more[j].0;
        lemma_reaches_ends(w, unmarked(w), start, q);
        let inv = |x: GcPtr| pending(v, stack, x);
        assert(inv(start)) by {
            if j < rest.len() {
                assert(stack[j] == more[j]);
                lemma_reaches_self(v, unmarked(v), start);
                assert(reaches(v, unmarked(v), stack[j].0, start));
            } else {
                let c = next_visits(w, p)[j - rest.len()].0;
                assert(c == kids[j - rest.len()]);
                assert(kids.contains(c));
                let back = kids_of(w, p).reverse();
                assert(back.contains(c));
                let m = choose|m: int| 0 <= m < back.len() && back[m] == c;
                assert(kids_of(w, p)[back.len() - 1 - m] == c);
                assert(kids_of(w, p).contains(c));
                assert(refs_of(v, p).contains(c));
                lemma_reaches_step(v, unmarked(v), p, p, c);
                assert(reaches(v, unmarked(v), stack[n].0, c));
            }
        }
        assert forall|x: GcPtr, y: GcPtr|
            w.live(x) && unmarked(w)(x) && inv(x) && w.live(y) && unmarked(w)(y)
                && #[trigger] refs_of(w, x).contains(y) implies #[trigger] inv(y) by {
            let k = choose|k: int|
                0 <= k < stack.len() && #[trigger] reaches(v, unmarked(v), stack[k].0, x);
            assert(x != p && y != p);
            assert(refs_of(v, x) == refs_of(w, x));
            lemma_reaches_step(v, unmarked(v), stack[k].0, x, y);
        }
        lemma_reaches_induct(w, unmarked(w), start, q, inv);
    }
}

/// A traversal visits exactly what its starting points reach through nodes that were not visited
/// before. It reports each node once, and with a filter those of the partition only.
pub proof fn law_traversal_exact<T: GcTrace>(
    v: HeapView<T>,
    stack: Seq<Visit>,
    filter: Option<GcPartitionId>,
)
    requires
        v.nodes.dom().finite(),
    ensures
        forall|q: GcPtr|
            v.live(q) ==> (#[trigger] walk(v, stack, filter).0.head(q).visited <==> v.head(q).visited
                || pending(v, stack, q)),
        forall|q: GcPtr| #[trigger]
            visits(walk(v, stack, filter).1, q) <==> pending(v, stack, q) && v.reported(filter, q),
        forall|a: int, b: int|
            0 <= a < b < walk(v, stack, filter).1.len() ==> #[trigger] walk(v, stack, filter).1[a].0
                != #[trigger] walk(v, stack, filter).1[b].0,
    decreases v.unvisited_nodes().len(), stack.len(),
{
    let (end, out) = walk(v, stack, filter);
    if stack.len() == 0 {
    } else {
        let (p, parent) = stack.last();
        let rest = stack.drop_last();
        let n = stack.len() - 1;
        if !v.unvisited(p) {
            law_traversal_exact(v, rest, filter);
            assert forall|q: GcPtr| pending(v, stack, q) <==> #[trigger] pending(v, rest, q) by {
                if pending(v, stack, q) {
                    let k = choose|k: int|
                        0 <= k < stack.len() && #[trigger] reaches(v, unmarked(v), stack[k].0, q);
                    lemma_reaches_ends(v, unmarked(v), stack[k].0, q);
                    assert(k < n);
                    assert(reaches(v, unmarked(v), rest[k].0, q));
                }
                if pending(v, rest, q) {
                    let k = choose|k: int|
                        0 <= k < rest.len() && #[trigger] reaches(v, unmarked(v), rest[k].0, q);
                    assert(reaches(v, unmarked(v), stack[k].0, q));
                }
            }
            assert forall|q: GcPtr| v.live(q) implies (#[trigger] end.head(q).visited
                <==> v.head(q).visited || pending(v, stack, q)) by {
                assert(pending(v, stack, q) <==> pending(v, rest, q));
            }
            assert forall|q: GcPtr| #[trigger] visits(out, q) <==> pending(v, stack, q)
                && v.reported(filter, q) by {
                assert(pending(v, stack, q) <==> pending(v, rest, q));
            }
        } else {
            lemma_visited_less(v, p);
            let w = v.with_visited(p);
            let more = rest + next_visits(w, p);
            law_traversal_exact(w, more, filter);
            let (tail_end, tail) = walk(w, more, filter);
            assert(end == tail_end);
            lemma_pending_self(w, more, p);
            assert forall|q: GcPtr| v.live(q) implies (#[trigger] end.head(q).visited
                <==> v.head(q).visited || pending(v, stack, q)) by {
                lemma_pending_visit(v, stack, q);
                assert(w.live(q));
                assert(tail_end.head(q).visited <==> w.head(q).visited || pending(w, more, q));
            }
            assert forall|q: GcPtr| #[trigger] visits(out, q) <==> pending(v, stack, q)
                && v.reported(filter, q) by {
                lemma_pending_visit(v, stack, q);
                assert(visits(tail, q) <==> pending(w, more, q) && w.reported(filter, q));
                assert(w.reported(filter, q) == v.reported(filter, q));
                if v.reported(filter, p) {
                    lemma_visits_cons((p, parent), tail, q);
                }
            }
            if v.reported(filter, p) {
                assert(!visits(tail, p));
                assert forall|a: int, b: int| 0 <= a < b < out.len() implies #[trigger] out[a].0
                    != #[trigger] out[b].0 by {
                    assert(out[b] == tail[b - 1]);
                    if a == 0 {
                        assert(visits(tail, tail[b - 1].0)) by {
                            assert(tail[b - 1].0 == tail[b - 1].0);
                        }
                    } else {
                        assert(out[a] == tail[a - 1]);
                        assert(tail[a - 1].0 != tail[b - 1].0);
                    }
                }
            }
        }
    }
}

/// The node is among the reported ones.
pub open spec fn visits(out: Seq<Visit>, p: GcPtr) -> bool {
    exists|k: int| 0 <= k < out.len() && (#[trigger] out[k]).0 == p
}

proof fn lemma_visits_cons(x: Visit, s: Seq<Visit>, q: GcPtr)
    ensures
        visits(seq![x] + s, q) <==> x.0 == q || visits(s, q),
{
    let t = seq![x] + s;
    if visits(s, q) {
        let k = choose|k: int| 0 <= k < s.len() && (#[trigger] s[k]).0 == q;
        assert(t[k + 1].0 == q);
    }
    if x.0 == q {
        assert(t[0].0 == q);
    }
    if visits(t, q) && x.0 != q {
        let k = choose|k: int| 0 <= k < t.len() && (#[trigger] t[k]).0 == q;
        assert(s[k - 1].0 == q);
    }
}

/// A visited node is not pending.
proof fn lemma_pending_self<T: GcTrace>(w: HeapView<T>, stack: Seq<Visit>, p: GcPtr)
    requires
        w.head(p).visited,
    ensures
        !pending(w, stack, p),
{
    if pending(w, stack, p) {
        let k = choose|k: int|
            0 <= k < stack.len() && #[trigger] reaches(w, unmarked(w), stack[k].0, p);
        lemma_reaches_ends(w, unmarked(w), stack[k].0, p);
    }
}

/// Two heaps differ in nothing but traversal marks.
pub open spec fn same_but_visits<T>(v: HeapView<T>, w: HeapView<T>) -> bool {
    &&& w == (HeapView { nodes: w.nodes, ..v })
    &&& w.nodes.dom() == v.nodes.dom()
    &&& forall|q: GcPtr| #[trigger]
        v.live(q) ==> w.nodes[q] == (NodeView {
            head: HeadView { visited: w.head(q).visited, ..v.head(q) },
            ..v.nodes[q]
        })
}

proof fn lemma_visits_trans<T>(u: HeapView<T>, v: HeapView<T>, w: HeapView<T>)
    requires
        same_but_visits(u, v),
        same_but_visits(v, w),
    ensures
        same_but_visits(u, w),
{
    assert forall|q: GcPtr| #[trigger] u.live(q) implies w.nodes[q] == (NodeView {
        head: HeadView { visited: w.head(q).visited, ..u.head(q) },
        ..u.nodes[q]
    }) by {
        assert(v.live(q));
    }
}

proof fn lemma_visit_marks<T>(v: HeapView<T>, p: GcPtr)
    requires
        v.live(p),
    ensures
        same_but_visits(v, v.with_visited(p)),
{
    assert(v.with_visited(p).nodes.dom() =~= v.nodes.dom());
}

/// A traversal changes nothing but traversal marks.
pub proof fn law_traversal_keeps<T: GcTrace>(
    v: HeapView<T>,
    stack: Seq<Visit>,
    filter: Option<GcPartitionId>,
)
    requires
        v.nodes.dom().finite(),
    ensures
        same_but_visits(v, walk(v, stack, filter).0),
    decreases v.unvisited_nodes().len(), stack.len(),
{
    if stack.len() > 0 {
        let (p, parent) = stack.last();
        let rest = stack.drop_last();
        if !v.unvisited(p) {
            law_traversal_keeps(v, rest, filter);
        } else {
            let m = v.with_visited(p);
            lemma_visited_less(v, p);
            lemma_visit_marks(v, p);
            law_traversal_keeps(m, rest + next_visits(m, p), filter);
            lemma_visits_trans(v, m, walk(v, stack, filter).0);
        }
    }
}

/// What a traversal reports: without a filter every node that it visits, and with one exactly those
/// of the partition that it names.
pub proof fn law_traversal_filter<T: GcTrace>(
    v: HeapView<T>,
    stack: Seq<Visit>,
    f: GcPartitionId,
    k: int,
    q: GcPtr,
)
    requires
        v.nodes.dom().finite(),
    ensures
        ({
            let all = walk(v, stack, None);
            let some = walk(v, stack, Some(f));
            &&& some.0 == all.0
            &&& visits(all.1, q) <==> v.nodes.dom().contains(q) && !v.nodes[q].head.visited
                && all.0.nodes[q].head.visited
            &&& visits(some.1, q) <==> visits(all.1, q) && v.nodes[q].head.partition == f
            &&& 0 <= k < some.1.len() ==> v.nodes[some.1[k].0].head.partition == f
        }),
{
    law_traversal_exact(v, stack, None);
    law_traversal_exact(v, stack, Some(f));
    lemma_filter_same_end(v, stack, f);
    law_traversal_keeps(v, stack, None);
    if pending(v, stack, q) {
        let j = choose|j: int|
            0 <= j < stack.len() && #[trigger] reaches(v, unmarked(v), stack[j].0, q);
        lemma_reaches_ends(v, unmarked(v), stack[j].0, q);
        assert(unmarked(v)(q));
    }
    if v.live(q) {
        assert(walk(v, stack, None).0.head(q).visited <==> v.head(q).visited || pending(
            v,
            stack,
            q,
        ));
    }
    assert(visits(walk(v, stack, None).1, q) <==> pending(v, stack, q));
    let some = walk(v, stack, Some(f)).1;
    if 0 <= k < some.len() {
        assert(visits(some, some[k].0));
    }
}

proof fn lemma_filter_same_end<T: GcTrace>(v: HeapView<T>, stack: Seq<Visit>, f: GcPartitionId)
    requires
        v.nodes.dom().finite(),
    ensures
        walk(v, stack, Some(f)).0 == walk(v, stack, None).0,
    decreases v.unvisited_nodes().len(), stack.len(),
{
    if stack.len() > 0 {
        let (p, parent) = stack.last();
        let rest = stack.drop_last();
        if !v.unvisited(p) {
            lemma_filter_same_end(v, rest, f);
        } else {
            let w = v.with_visited(p);
            lemma_visited_less(v, p);
            lemma_filter_same_end(w, rest + next_visits(w, p), f);
        }
    }
}

/// Every reported visit is one of those that the traversal started with, or names a node from
/// which a reference leads to the visited one.
pub proof fn law_traversal_parents<T: GcTrace>(
    v: HeapView<T>,
    stack: Seq<Visit>,
    filter: Option<GcPartitionId>,
    k: int,
)
    requires
        v.nodes.dom().finite(),
        0 <= k < walk(v, stack, filter).1.len(),
    ensures
        ({
            let visit = walk(v, stack, filter).1[k];
            stack.contains(visit) || (visit.1 is Some && refs_of(v, visit.1.unwrap()).contains(
                visit.0,
            ))
        }),
    decreases v.unvisited_nodes().len(), stack.len(),
{
    let out = walk(v, stack, filter).1;
    let visit = out[k];
    if stack.len() > 0 {
        let (p, parent) = stack.last();
        let rest = stack.drop_last();
        if !v.unvisited(p) {
            law_traversal_parents(v, rest, filter, k);
            if rest.contains(visit) {
                let j = choose|j: int| 0 <= j < rest.len() && rest[j] == visit;
                assert(stack[j] == visit);
            }
        } else {
            let w = v.with_visited(p);
            let next = next_visits(w, p);
            lemma_visited_less(v, p);
            lemma_visit_marks(v, p);
            let shift: int = if v.reported(filter, p) {
                1
            } else {
                0
            };
            if k < shift {
                assert(stack[stack.len() - 1] == visit);
            } else {
                law_traversal_parents(w, rest + next, filter, k - shift);
                if (rest + next).contains(visit) {
                    let j = choose|j: int| 0 <= j < (rest + next).len() && (rest + next)[j] == visit;
                    if j < rest.len() {
                        assert(stack[j] == visit);
                    } else {
                        assert(next[j - rest.len()] == visit);
                        law_next_visits(w, p, j - rest.len());
                        assert(refs_of(w, p) == refs_of(v, p));
                    }
                } else {
                    let from = visit.1.unwrap();
                    if v.live(from) {
                        assert(refs_of(w, from) == refs_of(v, from));
                    } else {
                        assert(w.nodes[from] == v.nodes[from]);
                    }
                }
            }
        }
    }
}

/// What a visited node adds to the pending visits: the nodes that it refers to, live and not
/// visited, each once and named as reached from it. The last one is the next to be visited, so
/// they stand in the reverse of the order in which the payload reports them.
pub proof fn law_next_visits<T: GcTrace>(v: HeapView<T>, p: GcPtr, k: int)
    ensures
        0 <= k < next_visits(v, p).len() ==> {
            let (c, parent) = next_visits(v, p)[k];
            &&& parent == Some(p)
            &&& refs_of(v, p).contains(c)
            &&& v.nodes.dom().contains(c)
            &&& !v.nodes[c].head.visited
        },
        forall|c: GcPtr|
            refs_of(v, p).contains(c) && v.nodes.dom().contains(c)
                && !(#[trigger] v.nodes[c]).head.visited ==> visits(next_visits(v, p), c),
        next_visits(v, p).len() <= kids_of(v, p).len(),
        (forall|c: GcPtr| #[trigger] kids_of(v, p).contains(c) ==> v.unvisited(c)) && 0 <= k
            < kids_of(v, p).len() ==> next_visits(v, p).len() == kids_of(v, p).len()
            && next_visits(v, p)[k].0 == kids_of(v, p)[kids_of(v, p).len() - 1 - k],
{
    let kids = kids_of(v, p);
    let back = kids.reverse();
    let pred = |c: GcPtr| v.unvisited(c);
    let list = back.filter(pred);
    let next = next_visits(v, p);
    lemma_kids_distinct(v, p);
    lemma_filter_members(back, pred);
    back.lemma_filter_len(pred);
    assert forall|c: GcPtr| back.contains(c) <==> kids.contains(c) by {
        if back.contains(c) {
            let j = choose|j: int| 0 <= j < back.len() && back[j] == c;
            assert(kids[kids.len() - 1 - j] == c);
        }
        if kids.contains(c) {
            let j = choose|j: int| 0 <= j < kids.len() && kids[j] == c;
            assert(back[kids.len() - 1 - j] == c);
        }
    }
    if 0 <= k < next.len() {
        assert(list.contains(list[k]));
    }
    assert forall|c: GcPtr|
        refs_of(v, p).contains(c) && v.nodes.dom().contains(c)
            && !(#[trigger] v.nodes[c]).head.visited implies visits(next, c) by {
        assert(kids.contains(c));
        assert(list.contains(c));
        let j = choose|j: int| 0 <= j < list.len() && list[j] == c;
        assert(next[j].0 == c);
    }
    if (forall|c: GcPtr| #[trigger] kids.contains(c) ==> v.unvisited(c)) {
        assert forall|j: int| 0 <= j < back.len() implies pred(#[trigger] back[j]) by {
            assert(back.contains(back[j]));
        }
        lemma_filter_nothing(back, pred);
    }
}

proof fn lemma_filter_nothing(list: Seq<GcPtr>, pred: spec_fn(GcPtr) -> bool)
    requires
        forall|j: int| 0 <= j < list.len() ==> pred(#[trigger] list[j]),
    ensures
        list.filter(pred) == list,
    decreases list.len(),
{
    reveal(Seq::filter);
    if list.len() > 0 {
        let d = list.drop_last();
        assert forall|j: int| 0 <= j < d.len() implies pred(#[trigger] d[j]) by {
            assert(d[j] == list[j]);
        }
        lemma_filter_nothing(d, pred);
        assert(pred(list[list.len() - 1]));
        assert(d.push(list.last()) =~= list);
    }
}

/// Pending visits are worked off from the last one, each with all that is reached from it before
/// the next: a traversal from `under` below `top` is one from `top` and then one from `under`.
pub proof fn law_traversal_depth_first<T: GcTrace>(
    v: HeapView<T>,
    under: Seq<Visit>,
    top: Seq<Visit>,
    filter: Option<GcPartitionId>,
)
    requires
        v.nodes.dom().finite(),
    ensures
        ({
            let first = walk(v, top, filter);
            let second = walk(first.0, under, filter);
            walk(v, under + top, filter) == (second.0, first.1 + second.1)
        }),
    decreases v.unvisited_nodes().len(), top.len(),
{
    let first = walk(v, top, filter);
    let second = walk(first.0, under, filter);
    if top.len() == 0 {
        assert(under + top =~= under);
        assert(first.1 + second.1 =~= second.1);
    } else {
        let (p, parent) = top.last();
        let rest = top.drop_last();
        assert((under + top).last() == top.last());
        assert((under + top).drop_last() =~= under + rest);
        if !v.unvisited(p) {
            law_traversal_depth_first(v, under, rest, filter);
        } else {
            let w = v.with_visited(p);
            let next = next_visits(w, p);
            lemma_visited_less(v, p);
            law_traversal_depth_first(w, under, rest + next, filter);
            assert((under + rest) + next =~= under + (rest + next));
            let deep = walk(w, rest + next, filter);
            if v.reported(filter, p) {
                assert(first.1 + second.1 =~= seq![(p, parent)] + (deep.1 + second.1));
            }
        }
    }
}

/// A traversal from a node that is not visited begins with that node and goes on with what it
/// refers to.
pub proof fn law_traversal_start<T: GcTrace>(v: HeapView<T>, p: GcPtr)
    requires
        v.nodes.dom().finite(),
        v.nodes.dom().contains(p),
    ensures
        v.nodes[p].head.visited ==> walk(v, seq![(p, None::<GcPtr>)], None).1.len() == 0,
        !v.nodes[p].head.visited ==> {
            let out = walk(v, seq![(p, None::<GcPtr>)], None).1;
            let w = v.with_visited(p);
            &&& out.len() > 0
            &&& out[0] == (p, None::<GcPtr>)
            &&& out.drop_first() == walk(w, next_visits(w, p), None).1
        },
{
    let stack = seq![(p, None::<GcPtr>)];
    let w = v.with_visited(p);
    assert(stack.drop_last() =~= Seq::<Visit>::empty());
    if v.nodes[p].head.visited {
        assert(walk(v, stack, None) == walk(v, stack.drop_last(), None));
    } else {
        assert(v.unvisited(p));
        lemma_visited_less(v, p);
        assert(stack.drop_last() + next_visits(w, p) =~= next_visits(w, p));
        let out = walk(v, stack, None).1;
        assert(out.drop_first() =~= walk(w, next_visits(w, p), None).1);
    }
}

/// Beginning a traversal clears the traversal marks of the nodes in the chain of the partition,
/// and changes nothing else.
pub proof fn law_visits_cleared<T>(v: HeapView<T>, pid: GcPartitionId, p: GcPtr)
    requires
        v.nodes.dom().contains(p),
    ensures
        ({
            let w = v.visits_cleared(pid);
            let there = (pid.0 as int) < v.parts.len();
            &&& same_but_visits(v, w)
            &&& w.nodes[p].head.visited <==> v.nodes[p].head.visited && !(there && v.parts[
                pid.0 as int
            ].nodes.contains(p))
        }),
{
    assert(v.visits_cleared(pid).nodes.dom() =~= v.nodes.dom());
}

} // verus!
