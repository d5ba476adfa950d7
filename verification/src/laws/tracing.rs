//! What payloads refer to: containers hand on what their members refer to, all of it and in order.

use vstd::prelude::*;

use crate::lemmas::lemma_filter_members;
use crate::marking::{gray_kids, kids_of, lemma_kids_distinct, refs_of};
use crate::model::HeapView;
use crate::node::{GcPtr, GcTriColor};
use crate::trace::{lemma_with_nodes_members, refs_of_all, CtxView, GcRef, GcTrace};

verus! {

proof fn lemma_concat_members(a: Seq<GcPtr>, b: Seq<GcPtr>)
    ensures
        forall|p: GcPtr| #[trigger] (a + b).contains(p) <==> a.contains(p) || b.contains(p),
{
    assert forall|p: GcPtr| #[trigger] (a + b).contains(p) <==> a.contains(p) || b.contains(p) by {
        if a.contains(p) {
            let k = choose|k: int| 0 <= k < a.len() && a[k] == p;
            assert((a + b)[k] == p);
        }
        if b.contains(p) {
            let k = choose|k: int| 0 <= k < b.len() && b[k] == p;
            assert((a + b)[a.len() + k] == p);
        }
        if (a + b).contains(p) {
            let k = choose|k: int| 0 <= k < (a + b).len() && (a + b)[k] == p;
            if k < a.len() {
                assert(a[k] == p);
            } else {
                assert(b[k - a.len()] == p);
            }
        }
    }
}

/// Plain values refer to no node.
pub proof fn law_plain_values(
    words: (u8, u16, u32, u64, u128, usize),
    numbers: (i8, i16, i32, i64, i128, isize),
    flag: bool,
    letter: char,
    text: String,
    slice: &str,
    lent: &'static str,
    lent_text: &'static String,
    p: GcPtr,
)
    ensures
        !words.0.refs().contains(p),
        !words.1.refs().contains(p),
        !words.2.refs().contains(p),
        !words.3.refs().contains(p),
        !words.4.refs().contains(p),
        !words.5.refs().contains(p),
        !numbers.0.refs().contains(p),
        !numbers.1.refs().contains(p),
        !numbers.2.refs().contains(p),
        !numbers.3.refs().contains(p),
        !numbers.4.refs().contains(p),
        !numbers.5.refs().contains(p),
        !flag.refs().contains(p),
        !letter.refs().contains(p),
        !text.refs().contains(p),
        !(*slice).refs().contains(p),
        !lent.refs().contains(p),
        !lent_text.refs().contains(p),
{
}

/// A marker of a type refers to no node.
pub proof fn law_marker<T: ?Sized>(marker: core::marker::PhantomData<T>, p: GcPtr)
    ensures
        !marker.refs().contains(p),
{
}

/// A handle, and a typed reference, refers to its node and to no other.
pub proof fn law_references<T>(node: GcPtr, gc_ref: GcRef<T>, p: GcPtr)
    ensures
        node.refs().contains(p) <==> p == node,
        node.refs().len() == 1,
        gc_ref.refs().contains(p) <==> p == gc_ref.ptr(),
        gc_ref.refs().len() == 1,
{
    assert(node.refs()[0] == node);
    assert(gc_ref.refs()[0] == gc_ref.ptr());
}

/// A pointer that owns a value, or shares one, refers to what the value refers to.
pub proof fn law_owned<T: GcTrace + ?Sized>(
    owned: Box<T>,
    counted: std::rc::Rc<T>,
    shared: std::sync::Arc<T>,
    p: GcPtr,
)
    ensures
        owned.refs().contains(p) <==> (*owned).refs().contains(p),
        owned.refs().len() == (*owned).refs().len(),
        counted.refs().contains(p) <==> (*counted).refs().contains(p),
        counted.refs().len() == (*counted).refs().len(),
        shared.refs().contains(p) <==> (*shared).refs().contains(p),
        shared.refs().len() == (*shared).refs().len(),
        forall|i: int|
            0 <= i < owned.refs().len() ==> #[trigger] owned.refs()[i] == (*owned).refs()[i],
        forall|i: int|
            0 <= i < counted.refs().len() ==> #[trigger] counted.refs()[i] == (*counted).refs()[i],
        forall|i: int|
            0 <= i < shared.refs().len() ==> #[trigger] shared.refs()[i] == (*shared).refs()[i],
{
}

/// An option refers to what its value refers to, and a result to what the value refers to that it
/// holds, good or bad.
pub proof fn law_choices<T: GcTrace, E: GcTrace>(value: T, error: E, p: GcPtr)
    ensures
        Some(value).refs().contains(p) <==> value.refs().contains(p),
        Some(value).refs().len() == value.refs().len(),
        forall|i: int|
            0 <= i < value.refs().len() ==> #[trigger] Some(value).refs()[i] == value.refs()[i],
        !None::<T>.refs().contains(p),
        Ok::<T, E>(value).refs().contains(p) <==> value.refs().contains(p),
        Ok::<T, E>(value).refs().len() == value.refs().len(),
        forall|i: int|
            0 <= i < value.refs().len() ==> #[trigger] Ok::<T, E>(value).refs()[i] == value.refs()[i],
        Err::<T, E>(error).refs().contains(p) <==> error.refs().contains(p),
        Err::<T, E>(error).refs().len() == error.refs().len(),
        forall|i: int|
            0 <= i < error.refs().len() ==> #[trigger] Err::<T, E>(error).refs()[i] == error.refs()[i],
{
}

/// A sequence of values refers to what some member refers to, and to nothing else.
pub proof fn law_members<T: GcTrace>(items: Seq<T>, p: GcPtr)
    ensures
        refs_of_all(items).contains(p) <==> exists|i: int|
            0 <= i < items.len() && (#[trigger] items[i]).refs().contains(p),
    decreases items.len(),
{
    if items.len() > 0 {
        let d = items.drop_last();
        law_members(d, p);
        lemma_concat_members(refs_of_all(d), items.last().refs());
        if refs_of_all(d).contains(p) {
            let i = choose|i: int| 0 <= i < d.len() && (#[trigger] d[i]).refs().contains(p);
            assert(items[i].refs().contains(p));
        }
        if exists|i: int| 0 <= i < items.len() && (#[trigger] items[i]).refs().contains(p) {
            let i = choose|i: int|
                0 <= i < items.len() && (#[trigger] items[i]).refs().contains(p);
            if i < d.len() {
                assert(d[i].refs().contains(p));
            }
        }
        if items.last().refs().contains(p) {
            assert(items[items.len() - 1].refs().contains(p));
        }
    }
}

/// The references of a sequence are those of its front followed by those of its last member.
pub proof fn law_members_order<T: GcTrace>(items: Seq<T>, last: T, i: int)
    ensures
        refs_of_all(items.push(last)).len() == refs_of_all(items).len() + last.refs().len(),
        0 <= i < refs_of_all(items).len() ==> refs_of_all(items.push(last))[i] == refs_of_all(
            items,
        )[i],
        0 <= i < last.refs().len() ==> refs_of_all(items.push(last))[refs_of_all(items).len() + i]
            == last.refs()[i],
{
    assert(items.push(last).drop_last() =~= items);
}

/// A container refers to what some member refers to, and to nothing else; what it refers to
/// depends on the members and their order alone.
pub proof fn law_containers<T: GcTrace, const N: usize>(
    list: Vec<T>,
    queue: std::collections::VecDeque<T>,
    array: [T; N],
    slice: &[T],
    p: GcPtr,
)
    ensures
        list.refs().contains(p) <==> exists|i: int|
            0 <= i < list@.len() && (#[trigger] list@[i]).refs().contains(p),
        queue.refs().contains(p) <==> exists|i: int|
            0 <= i < queue@.len() && (#[trigger] queue@[i]).refs().contains(p),
        array.refs().contains(p) <==> exists|i: int|
            0 <= i < array@.len() && (#[trigger] array@[i]).refs().contains(p),
        (*slice).refs().contains(p) <==> exists|i: int|
            0 <= i < slice@.len() && (#[trigger] slice@[i]).refs().contains(p),
        list.refs() == refs_of_all(list@),
        queue.refs() == refs_of_all(queue@),
        array.refs() == refs_of_all(array@),
        (*slice).refs() == refs_of_all(slice@),
{
    law_members(list@, p);
    law_members(queue@, p);
    law_members(array@, p);
    law_members(slice@, p);
}

/// A tuple of one member refers to what its member refers to, and to nothing else.
pub proof fn law_tuple1<A: GcTrace>(t: (A,), p: GcPtr, i: int)
    ensures
        t.refs().contains(p) <==> t.0.refs().contains(p),
        t.refs().len() == t.0.refs().len(),
        0 <= i < t.refs().len() ==> t.refs()[i] == t.0.refs()[i],
{
}

/// A tuple of two members refers to what each of them refers to, and to nothing else;
/// the references of the last member come last.
pub proof fn law_tuple2<A: GcTrace, B: GcTrace>(t: (A, B), p: GcPtr, i: int)
    ensures
        ({
            let front = (t.0,);
            let last = t.1;
            &&& t.refs().contains(p) <==> t.0.refs().contains(p) || t.1.refs().contains(p)
            &&& t.refs().len() == front.refs().len() + last.refs().len()
            &&& 0 <= i < front.refs().len() ==> t.refs()[i] == front.refs()[i]
            &&& 0 <= i < last.refs().len() ==> t.refs()[front.refs().len() + i] == last.refs()[i]
        }),
{
    let front = (t.0,);
    law_tuple1(front, p, i);
    lemma_concat_members(front.refs(), t.1.refs());
}

/// A tuple of three members refers to what each of them refers to, and to nothing else;
/// the references of the last member come last.
pub proof fn law_tuple3<A: GcTrace, B: GcTrace, C: GcTrace>(t: (A, B, C), p: GcPtr, i: int)
    ensures
        ({
            let front = (t.0, t.1);
            let last = t.2;
            &&& t.refs().contains(p) <==> t.0.refs().contains(p) || t.1.refs().contains(p)
                || t.2.refs().contains(p)
            &&& t.refs().len() == front.refs().len() + last.refs().len()
            &&& 0 <= i < front.refs().len() ==> t.refs()[i] == front.refs()[i]
            &&& 0 <= i < last.refs().len() ==> t.refs()[front.refs().len() + i] == last.refs()[i]
        }),
{
    let front = (t.0, t.1);
    law_tuple2(front, p, i);
    lemma_concat_members(front.refs(), t.2.refs());
}

/// A tuple of four members refers to what each of them refers to, and to nothing else;
/// the references of the last member come last.
pub proof fn law_tuple4<
    A: GcTrace,
    B: GcTrace,
    C: GcTrace,
    D: GcTrace,
>(t: (A, B, C, D), p: GcPtr, i: int)
    ensures
        ({
            let front = (t.0, t.1, t.2);
            let last = t.3;
            &&& t.refs().contains(p) <==> t.0.refs().contains(p) || t.1.refs().contains(p)
                || t.2.refs().contains(p) || t.3.refs().contains(p)
            &&& t.refs().len() == front.refs().len() + last.refs().len()
            &&& 0 <= i < front.refs().len() ==> t.refs()[i] == front.refs()[i]
            &&& 0 <= i < last.refs().len() ==> t.refs()[front.refs().len() + i] == last.refs()[i]
        }),
{
    let front = (t.0, t.1, t.2);
    law_tuple3(front, p, i);
    lemma_concat_members(front.refs(), t.3.refs());
}

/// A tuple of five members refers to what each of them refers to, and to nothing else;
/// the references of the last member come last.
pub proof fn law_tuple5<
    A: GcTrace,
    B: GcTrace,
    C: GcTrace,
    D: GcTrace,
    E: GcTrace,
>(t: (A, B, C, D, E), p: GcPtr, i: int)
    ensures
        ({
            let front = (t.0, t.1, t.2, t.3);
            let last = t.4;
            &&& t.refs().contains(p) <==> t.0.refs().contains(p) || t.1.refs().contains(p)
                || t.2.refs().contains(p) || t.3.refs().contains(p) || t.4.refs().contains(p)
            &&& t.refs().len() == front.refs().len() + last.refs().len()
            &&& 0 <= i < front.refs().len() ==> t.refs()[i] == front.refs()[i]
            &&& 0 <= i < last.refs().len() ==> t.refs()[front.refs().len() + i] == last.refs()[i]
        }),
{
    let front = (t.0, t.1, t.2, t.3);
    law_tuple4(front, p, i);
    lemma_concat_members(front.refs(), t.4.refs());
}

/// A tuple of six members refers to what each of them refers to, and to nothing else;
/// the references of the last member come last.
pub proof fn law_tuple6<
    A: GcTrace,
    B: GcTrace,
    C: GcTrace,
    D: GcTrace,
    E: GcTrace,
    F: GcTrace,
>(t: (A, B, C, D, E, F), p: GcPtr, i: int)
    ensures
        ({
            let front = (t.0, t.1, t.2, t.3, t.4);
            let last = t.5;
            &&& t.refs().contains(p) <==> t.0.refs().contains(p) || t.1.refs().contains(p)
                || t.2.refs().contains(p) || t.3.refs().contains(p) || t.4.refs().contains(p)
                || t.5.refs().contains(p)
            &&& t.refs().len() == front.refs().len() + last.refs().len()
            &&& 0 <= i < front.refs().len() ==> t.refs()[i] == front.refs()[i]
            &&& 0 <= i < last.refs().len() ==> t.refs()[front.refs().len() + i] == last.refs()[i]
        }),
{
    let front = (t.0, t.1, t.2, t.3, t.4);
    law_tuple5(front, p, i);
    lemma_concat_members(front.refs(), t.5.refs());
}

/// A tuple of seven members refers to what each of them refers to, and to nothing else;
/// the references of the last member come last.
pub proof fn law_tuple7<
    A: GcTrace,
    B: GcTrace,
    C: GcTrace,
    D: GcTrace,
    E: GcTrace,
    F: GcTrace,
    G: GcTrace,
>(t: (A, B, C, D, E, F, G), p: GcPtr, i: int)
    ensures
        ({
            let front = (t.0, t.1, t.2, t.3, t.4, t.5);
            let last = t.6;
            &&& t.refs().contains(p) <==> t.0.refs().contains(p) || t.1.refs().contains(p)
                || t.2.refs().contains(p) || t.3.refs().contains(p) || t.4.refs().contains(p)
                || t.5.refs().contains(p) || t.6.refs().contains(p)
            &&& t.refs().len() == front.refs().len() + last.refs().len()
            &&& 0 <= i < front.refs().len() ==> t.refs()[i] == front.refs()[i]
            &&& 0 <= i < last.refs().len() ==> t.refs()[front.refs().len() + i] == last.refs()[i]
        }),
{
    let front = (t.0, t.1, t.2, t.3, t.4, t.5);
    law_tuple6(front, p, i);
    lemma_concat_members(front.refs(), t.6.refs());
}

/// A tuple of eight members refers to what each of them refers to, and to nothing else;
/// the references of the last member come last.
pub proof fn law_tuple8<
    A: GcTrace,
    B: GcTrace,
    C: GcTrace,
    D: GcTrace,
    E: GcTrace,
    F: GcTrace,
    G: GcTrace,
    H: GcTrace,
>(t: (A, B, C, D, E, F, G, H), p: GcPtr, i: int)
    ensures
        ({
            let front = (t.0, t.1, t.2, t.3, t.4, t.5, t.6);
            let last = t.7;
            &&& t.refs().contains(p) <==> t.0.refs().contains(p) || t.1.refs().contains(p)
                || t.2.refs().contains(p) || t.3.refs().contains(p) || t.4.refs().contains(p)
                || t.5.refs().contains(p) || t.6.refs().contains(p) || t.7.refs().contains(p)
            &&& t.refs().len() == front.refs().len() + last.refs().len()
            &&& 0 <= i < front.refs().len() ==> t.refs()[i] == front.refs()[i]
            &&& 0 <= i < last.refs().len() ==> t.refs()[front.refs().len() + i] == last.refs()[i]
        }),
{
    let front = (t.0, t.1, t.2, t.3, t.4, t.5, t.6);
    law_tuple7(front, p, i);
    lemma_concat_members(front.refs(), t.7.refs());
}

/// What a trace context holds after nodes were submitted: what it held before, in front and in
/// order, and then what is new, in the order in which it was first submitted, each node once.
pub proof fn law_submitted(ctx: CtxView, refs: Seq<GcPtr>, n: int, p: GcPtr)
    requires
        0 <= n <= refs.len(),
    ensures
        ctx.add_all(refs).opaque == ctx.opaque,
        ctx.add_all(refs).nodes.contains(p) <==> ctx.nodes.contains(p) || refs.contains(p),
        ctx.nodes.no_duplicates() ==> ctx.add_all(refs).nodes.no_duplicates(),
        ctx.nodes.is_prefix_of(ctx.add_all(refs).nodes),
        ctx.add_all(refs.take(n)).nodes.is_prefix_of(ctx.add_all(refs).nodes),
    decreases refs.len(),
{
    lemma_with_nodes_members(ctx.nodes, refs);
    if refs.len() > 0 {
        let d = refs.drop_last();
        let a = ctx.add_all(d).nodes;
        let b = ctx.add_all(refs).nodes;
        assert(a.is_prefix_of(b));
        if n < refs.len() {
            law_submitted(ctx, d, n, p);
            assert(d.take(n) =~= refs.take(n));
            lemma_prefix_trans(ctx.add_all(refs.take(n)).nodes, a, b);
        } else {
            law_submitted(ctx, d, 0, p);
            assert(refs.take(n) =~= refs);
        }
        lemma_prefix_trans(ctx.nodes, a, b);
    } else {
        assert(refs.take(n) =~= refs);
    }
}

proof fn lemma_prefix_trans(a: Seq<GcPtr>, b: Seq<GcPtr>, c: Seq<GcPtr>)
    requires
        a.is_prefix_of(b),
        b.is_prefix_of(c),
    ensures
        a.is_prefix_of(c),
{
    assert(a =~= c.take(a.len() as int)) by {
        assert forall|k: int| 0 <= k < a.len() implies a[k] == c[k] by {
            assert(b.subrange(0, a.len() as int)[k] == b[k]);
            assert(c.subrange(0, b.len() as int)[k] == c[k]);
        }
    }
}

/// A node refers to what its payload refers to; to nothing once the payload was taken out.
pub proof fn law_node_refs<T: GcTrace>(v: HeapView<T>, node: GcPtr, p: GcPtr)
    ensures
        v.nodes[node].payload is None ==> !refs_of(v, node).contains(p) && !kids_of(
            v,
            node,
        ).contains(p),
        v.nodes[node].payload is Some ==> {
            &&& refs_of(v, node) == v.nodes[node].payload.unwrap().refs()
            &&& kids_of(v, node).contains(p) <==> v.nodes[node].payload.unwrap().refs().contains(p)
        },
        kids_of(v, node).no_duplicates(),
{
    lemma_kids_distinct(v, node);
}

/// Tracing a node finds the nodes it refers to that are live and not black, each of them once.
pub proof fn law_traced<T: GcTrace>(v: HeapView<T>, node: GcPtr, p: GcPtr)
    ensures
        gray_kids(v, node).contains(p) <==> refs_of(v, node).contains(p) && v.nodes.dom().contains(p)
            && v.nodes[p].head.color != GcTriColor::Black,
        gray_kids(v, node).no_duplicates(),
{
    let kids = kids_of(v, node);
    let back = kids.reverse();
    lemma_kids_distinct(v, node);
    lemma_filter_members(back, |c: GcPtr| v.markable(c));
    if back.contains(p) {
        let k = choose|k: int| 0 <= k < back.len() && back[k] == p;
        assert(kids[kids.len() - 1 - k] == p);
    }
    if kids.contains(p) {
        let k = choose|k: int| 0 <= k < kids.len() && kids[k] == p;
        assert(back[kids.len() - 1 - k] == p);
    }
}

} // verus!
