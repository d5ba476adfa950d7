//! What the predicates and effects that contracts speak of mean.

use vstd::prelude::*;

use crate::arena::{spans, Hole};
use crate::codegen::derive::{
    bounded, calls, variants_error, Call, DeriveError, FieldKind, Fields, KindView, Meta, MetaView,
    Param, Shape, Target, TargetView, Variant,
};
use crate::codegen::type_table::{entries, tokens, TableError, Token, TypeTableEntry};
use crate::heap::scopes::GcScope;
use crate::heap::sweep::{
    all_chosen, all_notified, disposable, marked_swept, marked_unlinked,
};
use crate::heap::GcHeap;
use crate::laws::effects::rest_kept;
use crate::laws::tricolor::lemma_expanded_colors;
use crate::marking::{expanded, lemma_popped_keeps, mark_run};
use crate::model::{held, is_place, place, HeapView, PartView, StackView};
use crate::node::{GcHead, GcPartitionId, GcPtr, GcTriColor};
use crate::node_link::{judged, select};
use crate::trace::GcTrace;
use crate::type_registry::{MAX_TYPES, PASSES};

verus! {

/// A node is held exactly if it is in some scope of some stack.
pub proof fn law_held(stacks: Seq<StackView>, p: GcPtr)
    ensures
        held(stacks, p) <==> exists|s: int, d: int|
            0 <= s < stacks.len() && 0 <= d < stacks[s].scopes.len()
                && (#[trigger] stacks[s].scopes[d]).nodes.contains(p),
{
    if held(stacks, p) {
        let (s, d, i) = choose|s: int, d: int, i: int|
            is_place(stacks, s, d, i) && #[trigger] place(stacks, s, d, i) == p;
        assert(stacks[s].scopes[d].nodes[i] == p);
        assert(stacks[s].scopes[d].nodes.contains(p));
    }
    if exists|s: int, d: int|
        0 <= s < stacks.len() && 0 <= d < stacks[s].scopes.len()
            && (#[trigger] stacks[s].scopes[d]).nodes.contains(p) {
        let (s, d) = choose|s: int, d: int|
            0 <= s < stacks.len() && 0 <= d < stacks[s].scopes.len()
                && (#[trigger] stacks[s].scopes[d]).nodes.contains(p);
        let i = choose|i: int|
            0 <= i < stacks[s].scopes[d].nodes.len() && stacks[s].scopes[d].nodes[i] == p;
        assert(is_place(stacks, s, d, i));
        assert(place(stacks, s, d, i) == p);
    }
}

/// A scope handle is good as long as its stack has a scope at its position, and innermost if that
/// is the last one.
pub proof fn law_scope_handle<T>(scope: GcScope, v: HeapView<T>)
    ensures
        scope.of(v) <==> (scope.stack_id.0 as int) < v.stacks.len() && (scope.index as int)
            < v.stacks[scope.stack_id.0 as int].scopes.len(),
        scope.innermost(v) <==> (scope.stack_id.0 as int) < v.stacks.len() && scope.index + 1
            == v.stacks[scope.stack_id.0 as int].scopes.len(),
{
}

/// Bytes accounted to a partition count for it and for the total, and for nothing else.
pub proof fn law_charge<T>(v: HeapView<T>, i: int, bytes: int, k: int)
    requires
        0 <= i < v.parts.len(),
        0 <= k < v.parts.len(),
    ensures
        ({
            let w = v.charged(i, bytes);
            &&& w.total - v.total == bytes
            &&& w.parts[i].used - v.parts[i].used == bytes
            &&& w.parts[i] == (PartView { used: w.parts[i].used, ..v.parts[i] })
            &&& k != i ==> w.parts[k] == v.parts[k]
            &&& w.parts.len() == v.parts.len()
            &&& w.nodes == v.nodes
            &&& rest_kept(v, HeapView { total: v.total, ..w })
        }),
{
}

/// The callback was run for every node that was disposed of, with the header of the node, on a heap
/// that still has the node and not the ones before it.
pub proof fn law_callbacks<T, F: Fn(&GcHeap<T>, &GcHead)>(
    on_dispose: F,
    v: HeapView<T>,
    pid: int,
    gone: Seq<GcPtr>,
    collect: bool,
    k: int,
)
    requires
        all_notified(on_dispose, v, pid, gone, collect),
        gone.no_duplicates(),
        0 <= pid < v.parts.len(),
        0 <= k < gone.len(),
        v.nodes.dom().contains(gone[k]),
    ensures
        exists|h: &GcHeap<T>, n: &GcHead|
            {
                &&& #[trigger] call_ensures(on_dispose, (h, n), ())
                &&& n@ == v.nodes[gone[k]].head
                &&& h@.nodes.dom().contains(gone[k])
                &&& forall|j: int| 0 <= j < k ==> !h@.nodes.dom().contains(#[trigger] gone[j])
                &&& h@.parts[pid].nodes == v.parts[pid].nodes
                &&& h@.stacks == v.stacks
            },
{
    assert(gone[k] == gone[k]);
    let mid = crate::heap::sweep::dispose_mid(v, pid, gone.take(k), collect);
    assert(crate::heap::sweep::notified(on_dispose, mid, v.head(gone[k])));
    let (h, n) = choose|h: &GcHeap<T>, n: &GcHead|
        h@ == mid && n@ == v.head(gone[k]) && #[trigger] call_ensures(on_dispose, (h, n), ());
    let cut = gone.take(k);
    assert(!cut.contains(gone[k])) by {
        if cut.contains(gone[k]) {
            let j = choose|j: int| 0 <= j < cut.len() && cut[j] == gone[k];
            assert(gone[j] == gone[k]);
        }
    }
    assert(cut.to_set().contains(gone[k]) <==> cut.contains(gone[k]));
    assert forall|j: int| 0 <= j < k implies !h@.nodes.dom().contains(#[trigger] gone[j]) by {
        assert(cut[j] == gone[j]);
        assert(cut.contains(gone[j]));
        assert(cut.to_set().contains(gone[j]));
    }
    assert(call_ensures(on_dispose, (h, n), ()));
}

/// While callbacks of a sweep run, the chain of the partition is empty and all else is in place.
pub proof fn law_chain_out<T>(v: HeapView<T>, i: int, k: int)
    requires
        0 <= i < v.parts.len(),
        0 <= k < v.parts.len(),
    ensures
        ({
            let w = v.chainless(i);
            &&& w.parts[i].nodes.len() == 0
            &&& w.parts[i] == (PartView { nodes: w.parts[i].nodes, ..v.parts[i] })
            &&& k != i ==> w.parts[k] == v.parts[k]
            &&& w.nodes == v.nodes
            &&& rest_kept(v, w)
        }),
{
}

/// The marks of a sweep by a predicate are its answers: one for every node of the chain, on the
/// header and the payload of that node.
pub proof fn law_verdicts<T, P: Fn(&GcHead, Option<&T>) -> bool>(
    predicate: P,
    v: HeapView<T>,
    list: Seq<GcPtr>,
    marks: Seq<bool>,
    k: int,
)
    requires
        all_chosen(predicate, v, list, marks),
        0 <= k < list.len(),
    ensures
        marks.len() == list.len(),
        exists|h: &GcHead, t: Option<&T>|
            {
                &&& #[trigger] call_ensures(predicate, (h, t), marks[k])
                &&& h@ == v.nodes[list[k]].head
                &&& t is Some <==> v.nodes[list[k]].payload is Some
                &&& t is Some ==> v.nodes[list[k]].payload == Some(*t.unwrap())
            },
{
    assert(marks[k] == marks[k]);
    assert(crate::heap::sweep::chosen(predicate, v.nodes[list[k]], marks[k]));
    let (h, t) = choose|h: &GcHead, t: Option<&T>|
        {
            &&& h@ == v.nodes[list[k]].head
            &&& t is Some <==> v.nodes[list[k]].payload is Some
            &&& t matches Some(x) ==> v.nodes[list[k]].payload == Some(*x)
            &&& #[trigger] call_ensures(predicate, (h, t), marks[k])
        };
    assert(call_ensures(predicate, (h, t), marks[k]));
}

/// A verdict on a header is an answer of the predicate on that header.
pub proof fn law_judged<F: Fn(&GcHead) -> bool>(
    predicate: F,
    head: crate::node::HeadView,
    verdict: bool,
)
    requires
        judged(predicate, head, verdict),
    ensures
        exists|h: &GcHead| h@ == head && #[trigger] call_ensures(predicate, (h,), verdict),
{
}

/// A sweep by a predicate leaves the nodes without a mark in the chain and disposes of the others.
pub proof fn law_swept_by_marks<T>(v: HeapView<T>, i: int, marks: Seq<bool>, k: int)
    requires
        0 <= i < v.parts.len(),
        0 <= k < v.parts.len(),
    ensures
        ({
            let u = marked_unlinked(v, i, marks);
            let w = marked_swept(v, i, marks);
            let chain = v.parts[i].nodes;
            &&& w.parts[i].nodes == select(chain, marks, false)
            &&& w.nodes == u.disposed(i, v.drop_order(select(chain, marks, true))).nodes
            &&& u.nodes == v.nodes
            &&& u.parts[i] == (PartView { nodes: select(chain, marks, false), ..v.parts[i] })
            &&& k != i ==> w.parts[k] == v.parts[k]
            &&& w.parts[i].marking == v.parts[i].marking
            &&& w.parts[i].gray == v.parts[i].gray
        }),
{
}

/// Nodes can be disposed of if they are distinct live nodes of the partition that no chain lists
/// and no scope holds.
pub proof fn law_disposable<T>(v: HeapView<T>, i: int, list: Seq<GcPtr>)
    requires
        list.no_duplicates(),
        forall|k: int|
            0 <= k < list.len() ==> {
                &&& v.nodes.dom().contains(#[trigger] list[k])
                &&& v.nodes[list[k]].head.partition.0 == i
                &&& !v.parts[i].nodes.contains(list[k])
                &&& !held(v.stacks, list[k])
            },
    ensures
        disposable(v, i, list),
{
}

/// A partition can be removed if its nodes are all in its chain and its own scopes alone hold them.
pub proof fn law_removable<T>(v: HeapView<T>, pid: GcPartitionId)
    requires
        forall|p: GcPtr|
            #![trigger v.nodes[p]]
            v.nodes.dom().contains(p) && v.nodes[p].head.partition == pid ==> v.parts[
                pid.0 as int
            ].nodes.contains(p),
        forall|s: int, d: int, i: int|
            #![trigger v.stacks[s].scopes[d].nodes[i]]
            0 <= s < v.stacks.len() && 0 <= d < v.stacks[s].scopes.len() && 0 <= i
                < v.stacks[s].scopes[d].nodes.len()
                && v.nodes[v.stacks[s].scopes[d].nodes[i]].head.partition == pid
                ==> v.stacks[s].partition == Some(pid),
    ensures
        v.part_alone(pid),
{
    assert forall|p: GcPtr| #[trigger] v.live(p) && v.pid(p) == pid.0 implies v.parts[
        pid.0 as int
    ].nodes.contains(p) by {
        assert(v.nodes[p].head.partition == pid);
    }
    assert forall|s: int, d: int, i: int|
        is_place(v.stacks, s, d, i) && v.pid(#[trigger] place(v.stacks, s, d, i))
            == pid.0 implies v.stack_of(s, pid) by {
        assert(v.nodes[v.stacks[s].scopes[d].nodes[i]].head.partition == pid);
    }
}

/// A partition can be given back with a list of exactly its nodes, none of which a scope holds.
pub proof fn law_releasable<T>(v: HeapView<T>, pid: GcPartitionId, list: Seq<GcPtr>)
    requires
        list.no_duplicates(),
        forall|p: GcPtr| #[trigger]
            list.contains(p) <==> v.nodes.dom().contains(p) && v.nodes[p].head.partition == pid,
        forall|p: GcPtr| #[trigger] list.contains(p) ==> !held(v.stacks, p),
    ensures
        v.releasable(pid, list),
{
    assert forall|k: int| 0 <= k < list.len() implies v.live(#[trigger] list[k]) && v.pid(list[k])
        == pid.0 && !held(v.stacks, list[k]) by {
        assert(list.contains(list[k]));
    }
}

/// Protecting nodes protects them one after the other.
pub proof fn law_protect_all<T>(v: HeapView<T>, s: int, list: Seq<GcPtr>, p: GcPtr)
    ensures
        v.protected_all(s, Seq::empty()) == v,
        v.protected_all(s, list.push(p)) == v.protected_all(s, list).protected(s, p),
{
    assert(list.push(p).drop_last() =~= list);
}

/// Closing the scopes of stacks leaves none open on them.
pub proof fn law_stacks_closed<T>(v: HeapView<T>, n: int, s: int)
    requires
        0 <= n <= v.stacks.len(),
        0 <= s < v.stacks.len(),
    ensures
        v.stacks_closed(n).stacks.len() == v.stacks.len(),
        s < n ==> v.stacks_closed(n).stacks[s].scopes.len() == 0,
        s >= n ==> v.stacks_closed(n).stacks[s] == v.stacks[s],
    decreases n,
{
    if n > 0 {
        law_stacks_closed(v, n - 1, s);
        law_stacks_closed(v, n - 1, n - 1);
        lemma_stack_closed(v.stacks_closed(n - 1), n - 1, s);
    }
}

proof fn lemma_stack_closed<T>(v: HeapView<T>, t: int, s: int)
    requires
        0 <= t < v.stacks.len(),
        0 <= s < v.stacks.len(),
    ensures
        v.stack_closed(t).stacks.len() == v.stacks.len(),
        v.stack_closed(t).stacks[t].scopes.len() == 0,
        s != t ==> v.stack_closed(t).stacks[s] == v.stacks[s],
    decreases v.stacks[t].scopes.len(),
{
    if v.stacks[t].scopes.len() > 0 {
        lemma_stack_closed(v.scope_popped(t), t, s);
    }
}

/// The entry of a gray list that is traced first is the last one: with one step, a gray node there
/// is blackened and no other one.
pub proof fn law_mark_next<T: GcTrace>(v: HeapView<T>, pid: int, q: GcPtr)
    requires
        0 <= pid < v.parts.len(),
        v.parts[pid].gray.len() > 0,
        v.nodes.dom().contains(v.parts[pid].gray.last()),
        v.nodes[v.parts[pid].gray.last()].head.color == GcTriColor::Gray,
        v.nodes.dom().contains(q),
    ensures
        ({
            let x = v.parts[pid].gray.last();
            let w = mark_run(v, pid, 1).0;
            w.nodes[q].head.color == GcTriColor::Black <==> q == x || v.nodes[q].head.color
                == GcTriColor::Black
        }),
{
    let x = v.parts[pid].gray.last();
    let w = v.popped(pid);
    lemma_popped_keeps(v, pid);
    assert(v.live(x) && w.live(x) && w.live(q) && w.color(q) == v.color(q));
    let e = expanded(w, x);
    lemma_expanded_colors(w, x);
    crate::marking::lemma_expanded_keeps(w, x);
    assert(mark_run(v, pid, 1) == mark_run(e, pid, 0));
    lemma_no_steps(e, pid, q);
}

proof fn lemma_no_steps<T: GcTrace>(v: HeapView<T>, pid: int, q: GcPtr)
    requires
        0 <= pid < v.parts.len(),
        v.live(q),
    ensures
        mark_run(v, pid, 0).0.color(q) == v.color(q),
    decreases v.parts[pid].gray.len(),
{
    if v.parts[pid].gray.len() > 0 {
        let x = v.parts[pid].gray.last();
        lemma_popped_keeps(v, pid);
        if !v.live(x) || v.color(x) != GcTriColor::Gray {
            lemma_no_steps(v.popped(pid), pid, q);
        }
    }
}

/// A parameter of the generated code has the name, the kind and the bounds of the parameter that it
/// stands for, in order; one that stands for a type has the tracing bound besides, and no other.
pub proof fn law_bounds(p: Param, q: Param, i: int)
    requires
        bounded(p, q),
    ensures
        q.name@ == p.name@,
        q.is_type == p.is_type,
        0 <= i < p.bounds@.len() ==> i < q.bounds@.len() && q.bounds@[i]@ == p.bounds@[i]@,
        !p.is_type ==> q.bounds@.len() == p.bounds@.len(),
        p.is_type ==> q.bounds@.len() == p.bounds@.len() + 1 && q.bounds@[p.bounds@.len() as int]@
            == "::gc_lite::GcTrace"@,
{
}

/// What the errors say.
pub proof fn law_messages()
    ensures
        DeriveError::Union.spec_message() == "GcTrace cannot be derived for unions"@,
        DeriveError::UnknownKey.spec_message()
            == "unknown `gc` attribute; expected `#[gc(skip)]` or `#[gc(with = \"path\")]`"@,
        DeriveError::Duplicate.spec_message() == "duplicate `gc` attribute on the same field"@,
        DeriveError::Syntax.spec_message() == "malformed `gc` attribute"@,
        TableError::Syntax.spec_message() == "malformed declaration of GC types"@,
        TableError::CratePath.spec_message() == "expected `crate_path = <path>`"@,
        TableError::DropPass.spec_message() == "expected `drop_pass = N` or omit for default 0"@,
        TableError::PassRange.spec_message() == "drop_pass must be 0, 1, 2 or 3"@,
        TableError::TooMany.spec_message()
            == "too many GC types: maximum 256 entries are supported"@,
{
}

/// What is read off the parts of a type declaration: nothing is lost, added or reordered.
pub proof fn law_outline_views(
    list: Seq<Call>,
    i: int,
    key: String,
    text: String,
    position: usize,
)
    ensures
        calls(list).len() == list.len(),
        0 <= i < list.len() ==> {
            let c = calls(list)[i];
            &&& c.path is Some <==> list[i].path is Some
            &&& c.path is Some ==> c.path.unwrap() == list[i].path.unwrap()@
            &&& c.target == list[i].target@
        },
        Target::Named(key)@ == TargetView::Named(key@),
        Target::Binding(key)@ == TargetView::Binding(key@),
        Target::Index(position)@ == TargetView::Index(position as int),
        Target::Slot(position)@ == TargetView::Slot(position as int),
        Meta::Flag(key)@ == MetaView::Flag(key@),
        Meta::Value(key, Some(text))@ == MetaView::Value(key@, Some(text@)),
        Meta::Value(key, None)@ == MetaView::Value(key@, None),
        Meta::Broken@ == MetaView::Broken,
        FieldKind::Trace@ == KindView::Trace,
        FieldKind::Skip@ == KindView::Skip,
        FieldKind::With(text)@ == KindView::With(text@),
{
}

/// What is read off the parts of a declaration of payload types: nothing is lost, added or
/// reordered.
pub proof fn law_table_views(toks: Seq<Token>, list: Seq<TypeTableEntry>, i: int)
    ensures
        tokens(toks).len() == toks.len(),
        0 <= i < toks.len() ==> tokens(toks)[i].kind == toks[i].kind && tokens(toks)[i].text
            == toks[i].text@ && tokens(toks)[i].joint == toks[i].joint,
        entries(list).len() == list.len(),
        0 <= i < list.len() ==> entries(list)[i].ty == list[i].ty@ && entries(list)[i].drop_pass
            == list[i].drop_pass,
{
}

/// What is read off a hole and off a list of them.
pub proof fn law_hole_views(holes: Seq<Hole>, i: int)
    ensures
        spans(holes).len() == holes.len(),
        0 <= i < holes.len() ==> spans(holes)[i].start == holes[i].offset && spans(holes)[i].len
            == holes[i].size && spans(holes)[i].end() == holes[i].offset + holes[i].size,
{
}

/// How many drop passes and types there can be.
pub proof fn law_bounds_of_tables()
    ensures
        PASSES == 4,
        MAX_TYPES == 255,
{
}

/// Why an enum is refused: for the first variant that has a field that is refused.
pub proof fn law_first_error(list: Seq<Variant>, n: int)
    requires
        0 <= n <= list.len(),
    ensures
        variants_error(list, n) matches Some(e) ==> exists|k: int|
            {
                &&& 0 <= k < n
                &&& (#[trigger] list[k]).fields.stmts(false) is Err
                &&& list[k].fields.stmts(false)->Err_0 == e
                &&& forall|j: int| 0 <= j < k ==> (#[trigger] list[j]).fields.stmts(false) is Ok
            },
        variants_error(list, n) is None ==> forall|j: int|
            0 <= j < n ==> (#[trigger] list[j]).fields.stmts(false) is Ok,
    decreases n,
{
    if n > 0 {
        law_first_error(list, n - 1);
        if variants_error(list, n - 1) is None && list[n - 1].fields.stmts(false) is Err {
            assert(list[n - 1].fields.stmts(false)->Err_0 == variants_error(list, n)->Some_0);
        }
        if variants_error(list, n - 1) is Some {
            let e = variants_error(list, n)->Some_0;
            let k = choose|k: int|
                {
                    &&& 0 <= k < n - 1
                    &&& (#[trigger] list[k]).fields.stmts(false) is Err
                    &&& list[k].fields.stmts(false)->Err_0 == e
                    &&& forall|j: int| 0 <= j < k ==> (#[trigger] list[j]).fields.stmts(false) is Ok
                };
            assert(list[k].fields.stmts(false) is Err);
        }
    }
}

/// The fields of a struct or variant are all of its fields, in order.
pub proof fn law_fields(fields: Fields, i: int)
    ensures
        fields matches Fields::Named(list) ==> fields.shape() == Shape::Named && fields.list().len()
            == list@.len() && (0 <= i < list@.len() ==> fields.list()[i] == list@[i]),
        fields matches Fields::Unnamed(list) ==> fields.shape() == Shape::Unnamed
            && fields.list().len() == list@.len() && (0 <= i < list@.len() ==> fields.list()[i]
            == list@[i]),
        fields is Unit ==> fields.shape() == Shape::Unit && fields.list().len() == 0,
{
}

} // verus!
