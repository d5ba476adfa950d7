//! A collection on the heap model: marking is begun anew and carried through in all partitions.

use vstd::prelude::*;

use crate::lemmas::{keeps, lemma_keeps_trans};
use crate::marking::{
    expanded, lemma_expanded_keeps, lemma_mark_run_keeps, lemma_popped_keeps, mark_run,
};
use crate::model::{HeapView, PartView};
use crate::node::{GcPtr, GcTriColor, HeadView};
use crate::progress::{lemma_open_expanded, lemma_open_popped, lemma_run_ends, lemma_run_parts};
use crate::sweeping::fully_marked;
use crate::table::NodeView;
use crate::trace::GcTrace;

verus! {

impl<T> HeapView<T> {
    /// Header of a node when all marking is given up: the nodes of the partitions are white and
    /// on no gray list.
    pub open spec fn cleared_head(self, p: GcPtr) -> HeadView {
        if self.parts[self.pid(p)].nodes.contains(p) {
            HeadView { color: GcTriColor::White, listed: false, ..self.head(p) }
        } else {
            self.head(p)
        }
    }

    /// The heap after the first partitions, up to `n`, gave their marking cycles up.
    pub open spec fn cleared_upto(self, n: int) -> HeapView<T> {
        HeapView {
            nodes: Map::new(
                |p: GcPtr| self.live(p),
                |p: GcPtr|
                    if self.pid(p) < n {
                        NodeView { head: self.cleared_head(p), ..self.nodes[p] }
                    } else {
                        self.nodes[p]
                    },
            ),
            parts: Seq::new(
                self.parts.len(),
                |i: int|
                    if i < n {
                        PartView { gray: Seq::empty(), marking: false, ..self.parts[i] }
                    } else {
                        self.parts[i]
                    },
            ),
            ..self
        }
    }

    /// The heap after all partitions gave their marking cycles up.
    pub open spec fn cleared(self) -> HeapView<T> {
        self.cleared_upto(self.parts.len() as int)
    }

    /// The heap after all partitions gave their marking cycles up and began new ones.
    pub open spec fn restarted(self) -> HeapView<T> {
        self.cleared().prepared_upto(self.parts.len() as int)
    }

    /// No partition has an entry on its gray list.
    pub open spec fn no_gray(self) -> bool {
        forall|i: int| 0 <= i < self.parts.len() ==> (#[trigger] self.parts[i]).gray.len() == 0
    }
}

/// The heap after the first partitions, up to `n`, were marked one after the other, each until
/// its gray list was empty.
pub open spec fn round_upto<T: GcTrace>(v: HeapView<T>, n: nat) -> HeapView<T>
    decreases n,
{
    if n == 0 {
        v
    } else {
        fully_marked(round_upto(v, (n - 1) as nat), n - 1)
    }
}

/// The heap after marking went round all partitions until no gray list had an entry. (A round
/// that traces no node leaves none.)
pub open spec fn all_marked<T: GcTrace>(v: HeapView<T>) -> HeapView<T>
    decreases v.nonblack(),
{
    let w = round_upto(v, v.parts.len());
    if v.no_gray() {
        v
    } else if w.nonblack() < v.nonblack() {
        all_marked(w)
    } else {
        w
    }
}

pub proof fn lemma_cleared_keeps<T>(v: HeapView<T>, n: int)
    ensures
        keeps(v, v.cleared_upto(n)),
{
    assert(v.cleared_upto(n).nodes.dom() =~= v.nodes.dom());
}

/// Marking blackens nodes and never undoes it; if it blackens none, it leaves the gray lists of
/// the other partitions as they were.
proof fn lemma_run_quiet<T: GcTrace>(v: HeapView<T>, pid: int, steps: nat)
    requires
        v.nodes.dom().finite(),
    ensures
        mark_run(v, pid, steps).0.nonblack() <= v.nonblack(),
        mark_run(v, pid, steps).0.nonblack() == v.nonblack() ==> forall|i: int|
            0 <= i < v.parts.len() && i != pid ==> (#[trigger] mark_run(v, pid, steps).0.parts[i])
                == v.parts[i],
    decreases steps, v.parts[pid].gray.len(),
{
    if 0 <= pid < v.parts.len() && v.parts[pid].gray.len() > 0 {
        let p = v.parts[pid].gray.last();
        let w = v.popped(pid);
        lemma_popped_keeps(v, pid);
        lemma_open_popped(v, pid);
        assert(w.nonblack() == v.nonblack());
        if !v.live(p) || v.color(p) != GcTriColor::Gray {
            lemma_run_quiet(w, pid, steps);
            if mark_run(v, pid, steps).0.nonblack() == v.nonblack() {
                assert forall|i: int| 0 <= i < v.parts.len() && i != pid implies (
                #[trigger] mark_run(v, pid, steps).0.parts[i]) == v.parts[i] by {
                    assert(mark_run(w, pid, steps).0.parts[i] == w.parts[i]);
                }
            }
        } else if steps == 0 {
            crate::progress::lemma_run_stopped(v, pid, 0);
        } else {
            assert(w.live(p) && w.color(p) == GcTriColor::Gray);
            lemma_open_expanded(w, p);
            lemma_expanded_keeps(w, p);
            lemma_run_quiet(expanded(w, p), pid, (steps - 1) as nat);
        }
    }
}

/// A round keeps the nodes and the marking states; if it blackens no node, the gray lists that it
/// went through are empty and the others as they were.
pub proof fn lemma_round<T: GcTrace>(v: HeapView<T>, n: nat)
    requires
        v.nodes.dom().finite(),
        n <= v.parts.len(),
    ensures
        keeps(v, round_upto(v, n)),
        round_upto(v, n).parts.len() == v.parts.len(),
        round_upto(v, n).limit == v.limit,
        round_upto(v, n).threshold == v.threshold,
        round_upto(v, n).opaque == v.opaque,
        round_upto(v, n).nonblack() <= v.nonblack(),
        forall|i: int|
            0 <= i < v.parts.len() ==> (#[trigger] round_upto(v, n).parts[i]).marking
                == v.parts[i].marking,
        round_upto(v, n).nonblack() == v.nonblack() ==> forall|i: int|
            0 <= i < n ==> (#[trigger] round_upto(v, n).parts[i]).gray.len() == 0,
    decreases n,
{
    if n == 0 {
        assert(keeps(v, v));
    } else {
        let u = round_upto(v, (n - 1) as nat);
        let w = round_upto(v, n);
        lemma_round(v, (n - 1) as nat);
        assert(u.nodes.dom().finite());
        let k = u.nonblack();
        lemma_run_ends(u, n - 1, k);
        lemma_run_parts(u, n - 1, k);
        lemma_mark_run_keeps(u, n - 1, k);
        lemma_run_quiet(u, n - 1, k);
        lemma_keeps_trans(v, u, w);
        assert forall|i: int| 0 <= i < v.parts.len() implies (#[trigger] w.parts[i]).marking
            == v.parts[i].marking by {
            assert(u.parts[i].marking == v.parts[i].marking);
        }
        if w.nonblack() == v.nonblack() {
            assert forall|i: int| 0 <= i < n implies (#[trigger] w.parts[i]).gray.len() == 0 by {
                if i < n - 1 {
                    assert(u.parts[i].gray.len() == 0);
                }
            }
        }
    }
}

/// Marking all partitions keeps the nodes and the marking states, and no gray list has an entry
/// at the end.
pub proof fn lemma_all_marked<T: GcTrace>(v: HeapView<T>)
    requires
        v.nodes.dom().finite(),
    ensures
        keeps(v, all_marked(v)),
        all_marked(v).parts.len() == v.parts.len(),
        all_marked(v).limit == v.limit,
        all_marked(v).threshold == v.threshold,
        all_marked(v).opaque == v.opaque,
        all_marked(v).no_gray(),
        forall|i: int|
            0 <= i < v.parts.len() ==> (#[trigger] all_marked(v).parts[i]).marking
                == v.parts[i].marking,
    decreases v.nonblack(),
{
    assert(keeps(v, v));
    if !v.no_gray() {
        let w = round_upto(v, v.parts.len());
        lemma_round(v, v.parts.len());
        if w.nonblack() < v.nonblack() {
            lemma_all_marked(w);
            lemma_keeps_trans(v, w, all_marked(w));
            assert forall|i: int| 0 <= i < v.parts.len() implies (
            #[trigger] all_marked(v).parts[i]).marking == v.parts[i].marking by {
                assert(w.parts[i].marking == v.parts[i].marking);
            }
        }
    }
}

} // verus!
