//! What each operation does to nodes and partitions, and what it leaves alone.

use vstd::prelude::*;

use crate::laws::tricolor::lemma_expanded_colors;
use crate::lemmas::lemma_filter_members;
use crate::marking::{expanded, mark_run, refs_of};
use crate::model::{HeapView, PartView};
use crate::node::{GcNodeFlag, GcPartitionId, GcPtr, GcTriColor, HeadView};
use crate::progress::{
    lemma_open_expanded, lemma_open_popped, lemma_run_parts, lemma_run_stopped, open_nodes,
};
use crate::table::NodeView;
use crate::trace::GcTrace;

verus! {

/// Everything but nodes and partitions is as it was.
pub open spec fn rest_kept<T>(v: HeapView<T>, w: HeapView<T>) -> bool {
    &&& w.id == v.id
    &&& w.reg == v.reg
    &&& w.weak == v.weak
    &&& w.stacks == v.stacks
    &&& w.limit == v.limit
    &&& w.threshold == v.threshold
    &&& w.total == v.total
    &&& w.opaque == v.opaque
}

/// The nodes are those of before, and all but `p` are as they were.
pub open spec fn others_kept<T>(v: HeapView<T>, w: HeapView<T>, p: GcPtr) -> bool {
    &&& w.nodes.dom() == v.nodes.dom()
    &&& forall|q: GcPtr| v.nodes.dom().contains(q) && q != p ==> #[trigger] w.nodes[q] == v.nodes[q]
}

/// All partitions but `i` are as they were, and of `i` at most the gray list changed.
pub open spec fn gray_only<T>(v: HeapView<T>, w: HeapView<T>, i: int) -> bool {
    &&& w.parts.len() == v.parts.len()
    &&& forall|k: int| 0 <= k < v.parts.len() && k != i ==> #[trigger] w.parts[k] == v.parts[k]
    &&& 0 <= i < v.parts.len() ==> w.parts[i] == (PartView {
        gray: w.parts[i].gray,
        ..v.parts[i]
    })
}

/// Of a node at most its color and its list mark changed.
pub open spec fn marks_only<T>(a: NodeView<T>, b: NodeView<T>) -> bool {
    b == (NodeView {
        head: HeadView { color: b.head.color, listed: b.head.listed, ..a.head },
        ..a
    })
}

/// Roots and nodes held by scopes are pinned; white nodes that are not are dead.
pub proof fn law_pinned<T>(v: HeapView<T>, p: GcPtr)
    ensures
        v.pinned(p) <==> v.nodes[p].head.root || v.nodes[p].head.local,
        v.dead(p) <==> v.nodes[p].head.color == GcTriColor::White && !v.nodes[p].head.root
            && !v.nodes[p].head.local,
        v.pid(p) == v.nodes[p].head.partition.0,
        v.color(p) == v.nodes[p].head.color,
        v.live(p) <==> v.nodes.dom().contains(p),
        v.size(p) == v.reg.infos[v.nodes[p].head.dtype as int].layout_size,
        v.drop_pass(p) == v.reg.infos[v.nodes[p].head.dtype as int].drop_pass,
        v.needs_drop(p) == v.reg.infos[v.nodes[p].head.dtype as int].needs_drop,
{
}

/// Setting a flag of a header sets that flag and no other.
pub proof fn law_flags(h: HeadView, f: GcNodeFlag, g: GcNodeFlag, b: bool)
    ensures
        h.with_flag(f, b).flag(f) == b,
        f != g ==> h.with_flag(f, b).flag(g) == h.flag(g),
        h.with_flag(f, b).with_flag(f, h.flag(f)) == h,
        h.with_flag(f, b).color == h.color,
        h.with_flag(f, b).dtype == h.dtype,
        h.with_flag(f, b).partition == h.partition,
        h.with_flag(f, b).weak == h.weak,
        h.flag(GcNodeFlag::Root) == h.root,
        h.flag(GcNodeFlag::Local) == h.local,
        h.flag(GcNodeFlag::GrayListed) == h.listed,
        h.flag(GcNodeFlag::TraverseVisited) == h.visited,
        h.flag(GcNodeFlag::ArenaAlloc) == h.arena,
{
    assert(h.with_flag(f, b).with_flag(f, h.flag(f)) =~= h);
}

/// A header starts white, without flags and without a weak reference.
pub open spec fn starts<T>(node: NodeView<T>, payload: T, dtype: u8, pid: GcPartitionId) -> bool {
    &&& node.payload == Some(payload)
    &&& node.head.dtype == dtype
    &&& node.head.partition == pid
    &&& !node.head.local
    &&& !node.head.visited
    &&& node.head.weak.spec_version() == 0
    &&& node.head.arena <==> node.offset is Some
}

/// Bytes, chain and everything else after a node of `size` bytes came to the front of the chain of
/// partition `i`.
pub open spec fn grown<T>(v: HeapView<T>, w: HeapView<T>, i: int, p: GcPtr, size: int) -> bool {
    &&& w.nodes.dom() == v.nodes.dom().insert(p)
    &&& forall|q: GcPtr| v.nodes.dom().contains(q) ==> #[trigger] w.nodes[q] == v.nodes[q]
    &&& w.total == v.total + size
    &&& w.parts.len() == v.parts.len()
    &&& forall|k: int| 0 <= k < v.parts.len() && k != i ==> #[trigger] w.parts[k] == v.parts[k]
    &&& w.parts[i].used == v.parts[i].used + size
    &&& w.parts[i].nodes.len() == v.parts[i].nodes.len() + 1
    &&& w.parts[i].nodes[0] == p
    &&& w.parts[i].nodes.drop_first() == v.parts[i].nodes
    &&& w.parts[i].marking == v.parts[i].marking
    &&& w.parts[i].arena_max == v.parts[i].arena_max
    &&& w.id == v.id
    &&& w.reg == v.reg
    &&& w.weak == v.weak
    &&& w.stacks == v.stacks
    &&& w.limit == v.limit
    &&& w.threshold == v.threshold
    &&& w.opaque == v.opaque
}

/// A new node: it holds its payload, is white and no root, stands at the front of its partition's
/// chain, and its bytes are accounted. It lies in the arena only where it is small enough for it.
pub proof fn law_new_node<T>(v: HeapView<T>, p: GcPtr, pid: GcPartitionId, dtype: u8, payload: T)
    requires
        (pid.0 as int) < v.parts.len(),
        !v.nodes.dom().contains(p),
    ensures
        ({
            let i = pid.0 as int;
            let size = v.reg.infos[dtype as int].layout_size as int;
            let w = v.allocated(p, pid, dtype, payload, false).attached(i, p);
            &&& starts(w.nodes[p], payload, dtype, pid)
            &&& w.nodes[p].head.color == GcTriColor::White
            &&& !w.nodes[p].head.root
            &&& !w.nodes[p].head.listed
            &&& grown(v, w, i, p, size)
            &&& w.parts[i].gray == v.parts[i].gray
            &&& size > v.parts[i].arena_max || v.parts[i].arena is None ==> w.nodes[p].offset is None
                && w.parts[i].arena == v.parts[i].arena
            &&& size <= v.parts[i].arena_max && v.parts[i].arena is Some ==> {
                let align = v.reg.infos[dtype as int].layout_align as int;
                let a = v.parts[i].arena.unwrap();
                &&& w.nodes[p].offset is Some <==> a.alloc_offset(size, align) is Some
                &&& w.nodes[p].offset is Some ==> w.nodes[p].offset == Some(
                    a.alloc_offset(size, align).unwrap() as usize,
                )
                &&& w.parts[i].arena == Some(a.after_alloc(size, align))
            }
        }),
{
    let i = pid.0 as int;
    let w = v.allocated(p, pid, dtype, payload, false).attached(i, p);
    crate::weak_id::GcWeakRawId::lemma_null();
    assert(w.nodes.dom() =~= v.nodes.dom().insert(p));
    assert(w.parts[i].nodes.drop_first() =~= v.parts[i].nodes);
}

/// A new root: as any new node, but it is a root, never lies in the arena, and in a marking cycle
/// it is gray and on the gray list.
pub proof fn law_new_root<T>(v: HeapView<T>, p: GcPtr, pid: GcPartitionId, dtype: u8, payload: T)
    requires
        (pid.0 as int) < v.parts.len(),
        !v.nodes.dom().contains(p),
    ensures
        ({
            let i = pid.0 as int;
            let size = v.reg.infos[dtype as int].layout_size as int;
            let w = v.root_allocated(p, pid, dtype, payload);
            &&& starts(w.nodes[p], payload, dtype, pid)
            &&& w.nodes[p].head.root
            &&& w.nodes[p].offset is None
            &&& grown(v, w, i, p, size)
            &&& w.parts[i].arena == v.parts[i].arena
            &&& v.parts[i].marking ==> {
                &&& w.nodes[p].head.color == GcTriColor::Gray
                &&& w.nodes[p].head.listed
                &&& w.parts[i].gray == v.parts[i].gray.push(p)
            }
            &&& !v.parts[i].marking ==> {
                &&& w.nodes[p].head.color == GcTriColor::White
                &&& !w.nodes[p].head.listed
                &&& w.parts[i].gray == v.parts[i].gray
            }
        }),
{
    let i = pid.0 as int;
    let w = v.root_allocated(p, pid, dtype, payload);
    crate::weak_id::GcWeakRawId::lemma_null();
    assert(w.nodes.dom() =~= v.nodes.dom().insert(p));
    assert(w.parts[i].nodes.drop_first() =~= v.parts[i].nodes);
}

/// The node went to the gray list of partition `i`: unless it was black, it is gray and marked as
/// listed, and it is on the list once more if it was not marked before.
pub open spec fn submitted<T>(v: HeapView<T>, w: HeapView<T>, i: int, p: GcPtr) -> bool {
    &&& v.nodes[p].head.color == GcTriColor::Black ==> w.nodes[p].head.color == GcTriColor::Black
        && w.nodes[p].head.listed == v.nodes[p].head.listed && w.parts[i].gray == v.parts[i].gray
    &&& v.nodes[p].head.color != GcTriColor::Black ==> w.nodes[p].head.color == GcTriColor::Gray
        && w.nodes[p].head.listed
    &&& v.nodes[p].head.color != GcTriColor::Black && v.nodes[p].head.listed ==> w.parts[i].gray
        == v.parts[i].gray
    &&& v.nodes[p].head.color != GcTriColor::Black && !v.nodes[p].head.listed ==> w.parts[i].gray
        == v.parts[i].gray.push(p)
}

/// Submitting a node to a gray list changes its color and list mark and that list alone.
pub proof fn law_submit<T>(v: HeapView<T>, i: int, p: GcPtr)
    requires
        0 <= i < v.parts.len(),
        v.nodes.dom().contains(p),
    ensures
        ({
            let w = v.gray_added(i, p);
            &&& submitted(v, w, i, p)
            &&& others_kept(v, w, p)
            &&& gray_only(v, w, i)
            &&& rest_kept(v, w)
            &&& marks_only(v.nodes[p], w.nodes[p])
        }),
{
    assert(v.gray_added(i, p).nodes.dom() =~= v.nodes.dom());
}

/// Making a node a root: it is one, and if it was none and its partition is marking, it goes to
/// the gray list of that partition. Stopping it from being one changes that flag alone.
pub proof fn law_roots<T>(v: HeapView<T>, p: GcPtr)
    requires
        v.wf(),
        v.nodes.dom().contains(p),
    ensures
        ({
            let i = v.nodes[p].head.partition.0 as int;
            let w = v.rooted(p);
            &&& w.nodes[p].head.root
            &&& marks_only(
                NodeView { head: HeadView { root: true, ..v.nodes[p].head }, ..v.nodes[p] },
                w.nodes[p],
            )
            &&& others_kept(v, w, p)
            &&& gray_only(v, w, i)
            &&& rest_kept(v, w)
            &&& v.nodes[p].head.root ==> w == v
            &&& !v.nodes[p].head.root && v.parts[i].marking ==> submitted(v, w, i, p)
            &&& !v.nodes[p].head.root && !v.parts[i].marking ==> w.parts == v.parts
                && w.nodes[p].head.color == v.nodes[p].head.color && w.nodes[p].head.listed
                == v.nodes[p].head.listed
        }),
        ({
            let w = v.with_head(p, HeadView { root: false, ..v.head(p) });
            &&& w.nodes[p] == (NodeView {
                head: HeadView { root: false, ..v.nodes[p].head },
                ..v.nodes[p]
            })
            &&& others_kept(v, w, p)
            &&& w.parts == v.parts
            &&& rest_kept(v, w)
        }),
{
    assert(v.with_head(p, HeadView { root: false, ..v.head(p) }).nodes.dom() =~= v.nodes.dom());
    assert(v.live(p));
    assert(v.rooted(p).nodes.dom() =~= v.nodes.dom());
}

/// Making a reference known: only below a black node, and only for a node that is not black. That
/// node becomes gray, and goes on the gray list of its own partition if that one is marking.
pub proof fn law_bind<T>(v: HeapView<T>, master: GcPtr, slave: GcPtr)
    requires
        v.wf(),
        v.nodes.dom().contains(master),
        v.nodes.dom().contains(slave),
    ensures
        ({
            let i = v.nodes[slave].head.partition.0 as int;
            let w = v.bound(master, slave);
            let acts = v.nodes[master].head.color == GcTriColor::Black && v.nodes[slave].head.color
                != GcTriColor::Black;
            &&& !acts ==> w == v
            &&& acts ==> w.nodes[slave].head.color == GcTriColor::Gray
            &&& acts && v.parts[i].marking ==> submitted(v, w, i, slave)
            &&& acts && !v.parts[i].marking ==> w.parts == v.parts && w.nodes[slave].head.listed
                == v.nodes[slave].head.listed
            &&& others_kept(v, w, slave)
            &&& gray_only(v, w, i)
            &&& rest_kept(v, w)
            &&& marks_only(v.nodes[slave], w.nodes[slave])
        }),
{
    assert(v.live(slave));
    assert(v.bound(master, slave).nodes.dom() =~= v.nodes.dom());
}

/// Announcing a write: a black node is gray afterwards and on the gray list of its partition, or
/// marked as being there; another one is left alone.
pub proof fn law_reopen<T>(v: HeapView<T>, p: GcPtr)
    requires
        v.wf(),
        v.nodes.dom().contains(p),
    ensures
        ({
            let i = v.nodes[p].head.partition.0 as int;
            let w = v.reopened(p);
            let black = v.nodes[p].head.color == GcTriColor::Black;
            &&& !black ==> w == v
            &&& black ==> w.nodes[p].head.color == GcTriColor::Gray && w.nodes[p].head.listed
            &&& black && !v.nodes[p].head.listed ==> w.parts[i].gray == v.parts[i].gray.push(p)
            &&& black && v.nodes[p].head.listed ==> w.parts[i].gray == v.parts[i].gray
            &&& others_kept(v, w, p)
            &&& gray_only(v, w, i)
            &&& rest_kept(v, w)
            &&& marks_only(v.nodes[p], w.nodes[p])
        }),
{
    assert(v.live(p));
    assert(v.reopened(p).nodes.dom() =~= v.nodes.dom());
}

/// Beginning a marking cycle where one can begin: every partition is marking, its pinned nodes are
/// gray, and without entries left over its other nodes are white. On its gray list stands what was
/// left over, and then the pinned nodes of its chain that were not marked as being there.
pub proof fn law_prepare<T>(v: HeapView<T>, pid: GcPartitionId, i: int, p: GcPtr)
    requires
        v.wf(),
        (pid.0 as int) < v.parts.len(),
        !v.parts[pid.0 as int].marking,
        0 <= i < v.parts.len(),
        v.parts[i].nodes.contains(p),
    ensures
        ({
            let w = v.prepared(pid);
            let left = v.parts[i].gray.len() > 0;
            let kept = v.nodes[p].head.root || v.nodes[p].head.local;
            &&& w.parts[i].marking
            &&& w.parts[i].nodes == v.parts[i].nodes
            &&& w.parts[i].used == v.parts[i].used
            &&& w.parts[i].arena == v.parts[i].arena
            &&& w.parts[i].arena_max == v.parts[i].arena_max
            &&& marks_only(v.nodes[p], w.nodes[p])
            &&& w.nodes[p].head.listed <==> v.nodes[p].head.listed || (kept && left)
            &&& kept ==> w.nodes[p].head.color == GcTriColor::Gray
            &&& !kept && !left ==> w.nodes[p].head.color == GcTriColor::White
            &&& !kept && left ==> w.nodes[p].head == v.nodes[p].head
            &&& v.parts[i].gray.is_prefix_of(w.parts[i].gray)
            &&& kept && !left ==> w.parts[i].gray.contains(p)
            &&& kept && left && !v.nodes[p].head.listed ==> w.parts[i].gray.contains(p)
            &&& !kept && w.parts[i].gray.contains(p) ==> v.parts[i].gray.contains(p)
            &&& rest_kept(v, w)
        }),
{
    let w = v.prepared(pid);
    let chain = v.parts[i].nodes;
    let pred = |q: GcPtr| v.seeds(i, q);
    let more = chain.filter(pred);
    let k = choose|k: int| 0 <= k < chain.len() && chain[k] == p;
    assert(v.live(v.parts[i].nodes[k]) && v.pid(v.parts[i].nodes[k]) == i);
    lemma_filter_members(chain, pred);
    let old = v.parts[i].gray;
    let all = w.parts[i].gray;
    assert(all == old + more);
    assert(old =~= all.subrange(0, old.len() as int));
    if more.contains(p) {
        let j = choose|j: int| 0 <= j < more.len() && more[j] == p;
        assert(all[old.len() + j] == p);
    }
    if all.contains(p) && !old.contains(p) {
        let j = choose|j: int| 0 <= j < all.len() && all[j] == p;
        if j < old.len() {
            assert(old[j] == p);
        } else {
            assert(more[j - old.len()] == p);
        }
    }
}

/// Beginning a marking cycle leaves nodes that are in no chain alone.
pub proof fn law_prepare_unchained<T>(v: HeapView<T>, pid: GcPartitionId, p: GcPtr)
    requires
        v.nodes.dom().contains(p),
        !v.parts[v.nodes[p].head.partition.0 as int].nodes.contains(p),
    ensures
        v.prepared(pid).nodes[p] == v.nodes[p],
        v.prepared(pid).nodes.dom() == v.nodes.dom(),
        v.prepared(pid).parts.len() == v.parts.len(),
{
    assert(v.prepared(pid).nodes.dom() =~= v.nodes.dom());
}

/// A marking cycle is not begun where one is under way, nor in a partition that does not exist.
pub proof fn law_prepare_refused<T>(v: HeapView<T>, pid: GcPartitionId)
    requires
        (pid.0 as int) >= v.parts.len() || v.parts[pid.0 as int].marking,
    ensures
        v.prepared(pid) == v,
{
}

/// Giving a marking cycle up: the partition is not marking, its gray list is empty, the nodes in
/// its chain are white and what was on its list is not marked as listed. All else stays.
pub proof fn law_reset<T>(v: HeapView<T>, i: int, k: int, p: GcPtr)
    requires
        0 <= i < v.parts.len(),
        0 <= k < v.parts.len(),
        v.nodes.dom().contains(p),
    ensures
        ({
            let w = v.mark_dropped(i);
            &&& w.nodes.dom() == v.nodes.dom()
            &&& w.parts.len() == v.parts.len()
            &&& !w.parts[i].marking
            &&& w.parts[i].gray.len() == 0
            &&& w.parts[k].nodes == v.parts[k].nodes
            &&& w.parts[k].used == v.parts[k].used
            &&& k != i ==> w.parts[k] == v.parts[k]
            &&& v.parts[i].nodes.contains(p) ==> w.nodes[p].head.color == GcTriColor::White
            &&& !v.parts[i].nodes.contains(p) ==> w.nodes[p].head.color == v.nodes[p].head.color
            &&& w.nodes[p].head.listed <==> v.nodes[p].head.listed && !v.parts[i].gray.contains(p)
            &&& w.parts[k].arena == v.parts[k].arena
            &&& w.parts[k].arena_max == v.parts[k].arena_max
            &&& marks_only(v.nodes[p], w.nodes[p])
            &&& rest_kept(v, w)
        }),
{
    assert(v.mark_dropped(i).nodes.dom() =~= v.nodes.dom());
}

/// Tracing a gray node makes it black, and the nodes that it refers to gray where they were white
/// or gray; no other color changes.
pub proof fn law_trace_step<T: GcTrace>(v: HeapView<T>, p: GcPtr, q: GcPtr)
    requires
        v.nodes.dom().contains(p),
        v.nodes.dom().contains(q),
    ensures
        ({
            let w = expanded(v, p);
            let child = refs_of(v, p).contains(q);
            &&& q == p ==> w.nodes[q].head.color == GcTriColor::Black
            &&& q != p && child && v.nodes[q].head.color != GcTriColor::Black
                ==> w.nodes[q].head.color == GcTriColor::Gray && w.nodes[q].head.listed
            &&& q != p && (!child || v.nodes[q].head.color == GcTriColor::Black) ==> w.nodes[q]
                == v.nodes[q]
            &&& marks_only(v.nodes[q], w.nodes[q])
            &&& w.nodes.dom() == v.nodes.dom()
            &&& rest_kept(v, w)
        }),
{
    crate::marking::lemma_expanded_keeps(v, p);
    assert(v.live(p) && v.live(q));
    lemma_expanded_colors(v, p);
}

/// Marking steps: no more nodes are blackened than allowed, none is ever un-blackened, and `true`
/// is the answer exactly when nothing is left on the gray list; with `false` as many nodes were
/// blackened as allowed.
pub proof fn law_mark_steps<T: GcTrace>(v: HeapView<T>, pid: int, steps: nat)
    requires
        v.nodes.dom().finite(),
        0 <= pid < v.parts.len(),
    ensures
        ({
            let (w, done) = mark_run(v, pid, steps);
            &&& done ==> w.parts[pid].gray.len() == 0
            &&& !done ==> w.parts[pid].gray.len() > 0
            &&& w.nonblack() <= v.nonblack() <= w.nonblack() + steps
            &&& !done ==> v.nonblack() == w.nonblack() + steps
        }),
    decreases steps, v.parts[pid].gray.len(),
{
    lemma_run_parts(v, pid, steps);
    if v.parts[pid].gray.len() > 0 {
        let x = v.parts[pid].gray.last();
        let w = v.popped(pid);
        crate::marking::lemma_popped_keeps(v, pid);
        lemma_open_popped(v, pid);
        assert(open_nodes(w) == open_nodes(v));
        if !v.live(x) || v.color(x) != GcTriColor::Gray {
            law_mark_steps(w, pid, steps);
        } else if steps == 0 {
            lemma_run_stopped(v, pid, 0);
        } else {
            let e = expanded(w, x);
            assert(w.live(x) && w.color(x) == GcTriColor::Gray);
            lemma_open_expanded(w, x);
            crate::marking::lemma_expanded_keeps(w, x);
            law_mark_steps(e, pid, (steps - 1) as nat);
        }
    }
}

/// Which nodes a sweep takes out of a chain: the white ones that are no roots and that no scope
/// holds; and when it does: after a marking cycle with nothing left to trace.
pub proof fn law_unlink<T>(v: HeapView<T>, pid: GcPartitionId, p: GcPtr)
    requires
        (pid.0 as int) < v.parts.len(),
    ensures
        ({
            let i = pid.0 as int;
            let w = v.unlinked(i);
            let dies = v.nodes[p].head.color == GcTriColor::White && !v.nodes[p].head.root
                && !v.nodes[p].head.local;
            &&& v.sweepable(pid) <==> v.parts[i].marking && v.parts[i].gray.len() == 0
            &&& v.dead_nodes(i).contains(p) <==> v.parts[i].nodes.contains(p) && dies
            &&& w.parts[i].nodes.contains(p) <==> v.parts[i].nodes.contains(p) && !dies
            &&& v.dead_nodes(i).len() + w.parts[i].nodes.len() == v.parts[i].nodes.len()
            &&& !w.parts[i].marking
            &&& w.parts[i].gray == v.parts[i].gray
            &&& w.parts[i].used == v.parts[i].used
            &&& w.parts[i].arena == v.parts[i].arena
            &&& forall|k: int| 0 <= k < v.parts.len() && k != i ==> #[trigger] w.parts[k]
                == v.parts[k]
            &&& w.nodes == v.nodes
            &&& rest_kept(v, w)
        }),
{
    let chain = v.parts[pid.0 as int].nodes;
    lemma_filter_members(chain, |q: GcPtr| v.dead(q));
    lemma_filter_members(chain, |q: GcPtr| !v.dead(q));
    lemma_filter_parts(chain, |q: GcPtr| v.dead(q), |q: GcPtr| !v.dead(q));
}

proof fn lemma_filter_parts(
    list: Seq<GcPtr>,
    f: spec_fn(GcPtr) -> bool,
    g: spec_fn(GcPtr) -> bool,
)
    requires
        forall|p: GcPtr| #[trigger] f(p) == !g(p),
    ensures
        list.filter(f).len() + list.filter(g).len() == list.len(),
    decreases list.len(),
{
    reveal(Seq::filter);
    if list.len() > 0 {
        lemma_filter_parts(list.drop_last(), f, g);
        assert(f(list.last()) == !g(list.last()));
    }
}

/// Taking payloads out: exactly those of the listed nodes whose dropping runs code.
pub proof fn law_emptied<T>(v: HeapView<T>, list: Seq<GcPtr>, p: GcPtr)
    requires
        v.nodes.dom().contains(p),
    ensures
        ({
            let w = v.emptied(list);
            let code = v.reg.infos[v.nodes[p].head.dtype as int].needs_drop;
            &&& w.nodes.dom() == v.nodes.dom()
            &&& w.nodes[p].head == v.nodes[p].head
            &&& w.nodes[p].offset == v.nodes[p].offset
            &&& list.contains(p) && code ==> w.nodes[p].payload is None
            &&& !(list.contains(p) && code) ==> w.nodes[p].payload == v.nodes[p].payload
            &&& w.parts == v.parts
            &&& rest_kept(v, w)
        }),
{
    assert(v.emptied(list).nodes.dom() =~= v.nodes.dom());
}

/// The payloads that are handed out: those of the listed nodes that are there and whose dropping
/// runs code, in the order of the list.
pub proof fn law_payloads<T>(v: HeapView<T>, list: Seq<GcPtr>, next: GcPtr)
    ensures
        v.payloads(Seq::empty()).len() == 0,
        ({
            let node = v.nodes[next];
            let code = v.reg.infos[node.head.dtype as int].needs_drop;
            &&& node.payload is Some && code ==> v.payloads(list.push(next)) == v.payloads(
                list,
            ).push(node.payload.unwrap())
            &&& node.payload is None || !code ==> v.payloads(list.push(next)) == v.payloads(list)
        }),
{
    assert(list.push(next).drop_last() =~= list);
}

/// Disposing of nodes: they are gone, with their bytes and their weak references, and nothing else
/// is. With `swept`, the arena gets their places back.
pub proof fn law_disposal<T>(v: HeapView<T>, i: int, gone: Seq<GcPtr>, p: GcPtr, k: int)
    requires
        0 <= i < v.parts.len(),
        0 <= k < v.parts.len(),
    ensures
        ({
            let a = v.disposed(i, gone);
            let b = v.swept(i, gone);
            &&& a.nodes.dom().contains(p) <==> v.nodes.dom().contains(p) && !gone.contains(p)
            &&& a.nodes.dom().contains(p) ==> a.nodes[p] == v.nodes[p]
            &&& b.nodes == a.nodes
            &&& b.weak == a.weak
            &&& b.total == a.total
            &&& a.total - v.total == a.parts[i].used - v.parts[i].used
            &&& k != i ==> a.parts[k] == v.parts[k] && b.parts[k] == v.parts[k]
            &&& a.parts[i].nodes == v.parts[i].nodes && b.parts[i].nodes == v.parts[i].nodes
            &&& a.parts[i].gray == v.parts[i].gray && b.parts[i].gray == v.parts[i].gray
            &&& a.parts[i].marking == v.parts[i].marking && b.parts[i].marking
                == v.parts[i].marking
            &&& a.parts[i].arena == v.parts[i].arena
            &&& b.parts[i].used == a.parts[i].used
            &&& a.stacks == v.stacks && b.stacks == v.stacks
            &&& a.limit == v.limit && a.threshold == v.threshold && a.opaque == v.opaque
            &&& b.limit == v.limit && b.threshold == v.threshold && b.opaque == v.opaque
            &&& a.id == v.id && b.id == v.id && a.reg == v.reg && b.reg == v.reg
        }),
{
    assert(gone.to_set().contains(p) <==> gone.contains(p));
}

/// One node more that is disposed of takes the size of its type off the account.
pub proof fn law_disposal_bytes<T>(v: HeapView<T>, i: int, gone: Seq<GcPtr>, next: GcPtr)
    requires
        0 <= i < v.parts.len(),
    ensures
        v.disposed(i, Seq::empty()).total == v.total,
        v.disposed(i, gone.push(next)).total == v.disposed(i, gone).total - v.reg.infos[
            v.nodes[next].head.dtype as int
        ].layout_size,
{
    assert(gone.push(next).drop_last() =~= gone);
}

/// Replacing the payload of a node changes that payload and nothing else.
pub proof fn law_payload_replaced<T>(v: HeapView<T>, p: GcPtr, payload: Option<T>)
    requires
        v.nodes.dom().contains(p),
    ensures
        ({
            let w = v.with_payload(p, payload);
            &&& w.nodes[p] == (NodeView { payload, ..v.nodes[p] })
            &&& others_kept(v, w, p)
            &&& w.parts == v.parts
            &&& rest_kept(v, w)
        }),
{
    assert(v.with_payload(p, payload).nodes.dom() =~= v.nodes.dom());
}

/// A partition exists if its id is below the number of partitions.
pub proof fn law_partition_ids<T>(v: HeapView<T>, pid: GcPartitionId)
    ensures
        v.has_part(pid) <==> (pid.0 as int) < v.parts.len(),
{
}

/// Colors have codes of their own, from zero to two, and flags have bits of their own.
pub proof fn law_codes(a: GcTriColor, b: GcTriColor, f: GcNodeFlag, g: GcNodeFlag)
    ensures
        a != b ==> a.spec_code() != b.spec_code(),
        a.spec_code() <= 2,
        GcTriColor::White.spec_code() == 0,
        f != g ==> f.spec_bits() & g.spec_bits() == 0,
        f.spec_bits() != 0,
        f.spec_bits() & 3 == 0,
{
    assert(0x08u32 & 0x10u32 == 0 && 0x08u32 & 0x20u32 == 0 && 0x08u32 & 0x40u32 == 0 && 0x08u32
        & 0x80u32 == 0) by (bit_vector);
    assert(0x10u32 & 0x08u32 == 0 && 0x10u32 & 0x20u32 == 0 && 0x10u32 & 0x40u32 == 0 && 0x10u32
        & 0x80u32 == 0) by (bit_vector);
    assert(0x20u32 & 0x08u32 == 0 && 0x20u32 & 0x10u32 == 0 && 0x20u32 & 0x40u32 == 0 && 0x20u32
        & 0x80u32 == 0) by (bit_vector);
    assert(0x40u32 & 0x08u32 == 0 && 0x40u32 & 0x10u32 == 0 && 0x40u32 & 0x20u32 == 0 && 0x40u32
        & 0x80u32 == 0) by (bit_vector);
    assert(0x80u32 & 0x08u32 == 0 && 0x80u32 & 0x10u32 == 0 && 0x80u32 & 0x20u32 == 0 && 0x80u32
        & 0x40u32 == 0) by (bit_vector);
    assert(0x08u32 & 3 == 0 && 0x10u32 & 3 == 0 && 0x20u32 & 3 == 0 && 0x40u32 & 3 == 0 && 0x80u32
        & 3 == 0) by (bit_vector);
}

} // verus!
