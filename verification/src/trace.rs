//! Tracing: how a payload reports the nodes it refers to.

use vstd::prelude::*;

use crate::node::GcPtr;

verus! {

/// The list `nodes` with `p` appended, unless it is already there.
pub open spec fn with_node(nodes: Seq<GcPtr>, p: GcPtr) -> Seq<GcPtr> {
    if nodes.contains(p) {
        nodes
    } else {
        nodes.push(p)
    }
}

/// The list `nodes` after each of `refs` was submitted to it in turn.
pub open spec fn with_nodes(nodes: Seq<GcPtr>, refs: Seq<GcPtr>) -> Seq<GcPtr>
    decreases refs.len(),
{
    if refs.len() == 0 {
        nodes
    } else {
        with_node(with_nodes(nodes, refs.drop_last()), refs.last())
    }
}

/// Submitting a concatenation is submitting its parts one after the other.
pub proof fn lemma_with_nodes_concat(nodes: Seq<GcPtr>, a: Seq<GcPtr>, b: Seq<GcPtr>)
    ensures
        with_nodes(nodes, a + b) == with_nodes(with_nodes(nodes, a), b),
    decreases b.len(),
{
    if b.len() == 0 {
        assert(a + b =~= a);
    } else {
        lemma_with_nodes_concat(nodes, a, b.drop_last());
        assert((a + b).drop_last() =~= a + b.drop_last());
        assert((a + b).last() == b.last());
    }
}

/// Submitting keeps what is there, adds exactly the submitted nodes and never adds a node twice.
pub proof fn lemma_with_nodes_members(nodes: Seq<GcPtr>, refs: Seq<GcPtr>)
    ensures
        forall|p: GcPtr| #[trigger] with_nodes(nodes, refs).contains(p) <==> nodes.contains(p)
            || refs.contains(p),
        nodes.no_duplicates() ==> with_nodes(nodes, refs).no_duplicates(),
        with_nodes(nodes, refs).len() <= nodes.len() + refs.len(),
    decreases refs.len(),
{
    if refs.len() > 0 {
        let before = with_nodes(nodes, refs.drop_last());
        lemma_with_nodes_members(nodes, refs.drop_last());
        let after = with_nodes(nodes, refs);
        assert forall|p: GcPtr| #[trigger] after.contains(p) <==> nodes.contains(p)
            || refs.contains(p) by {
            if refs.contains(p) && p != refs.last() {
                let i = choose|i: int| 0 <= i < refs.len() && refs[i] == p;
                assert(refs.drop_last()[i] == p);
            }
            if refs.drop_last().contains(p) {
                let i = choose|i: int| 0 <= i < refs.len() - 1 && refs.drop_last()[i] == p;
                assert(refs[i] == p);
            }
            if before.contains(p) {
                let i = choose|i: int| 0 <= i < before.len() && before[i] == p;
                assert(after[i] == p);
            }
            if !before.contains(refs.last()) {
                assert(after[after.len() - 1] == refs.last());
            }
        }
    }
}

/// What a trace context has collected, and the opaque value it carries.
#[verifier::ext_equal]
pub struct CtxView {
    pub nodes: Seq<GcPtr>,
    pub opaque: usize,
}

impl CtxView {
    /// The context after each of `refs` was submitted.
    pub open spec fn add_all(self, refs: Seq<GcPtr>) -> CtxView {
        CtxView { nodes: with_nodes(self.nodes, refs), opaque: self.opaque }
    }
}

/// Collects the nodes that a payload refers to, each of them once.
pub struct GcTraceCtx {
    traced_nodes: Vec<GcPtr>,
    opaque: usize,
}

impl View for GcTraceCtx {
    type V = CtxView;

    closed spec fn view(&self) -> CtxView {
        CtxView { nodes: self.traced_nodes@, opaque: self.opaque }
    }
}

impl GcTraceCtx {
    /// An empty context with room for `cap` nodes.
    pub fn new(cap: usize, opaque: usize) -> (r: Self)
        ensures
            r@ == (CtxView { nodes: Seq::empty(), opaque }),
    {
        GcTraceCtx { traced_nodes: Vec::with_capacity(cap), opaque }
    }

    /// The opaque value of the heap that made the context.
    #[inline(always)]
    pub fn opaque(&self) -> (r: usize)
        ensures
            r == self@.opaque,
    {
        self.opaque
    }

    /// Submits a node; one that was submitted before is not listed again.
    pub fn add_node(&mut self, node: GcPtr)
        ensures
            final(self)@ == old(self)@.add_all(seq![node]),
    {
        proof {
            assert(seq![node].drop_last() =~= Seq::<GcPtr>::empty());
            assert(with_nodes(self@.nodes, seq![node].drop_last()) == self@.nodes);
        }
        let mut i: usize = 0;
        while i < self.traced_nodes.len()
            invariant
                i <= self.traced_nodes@.len(),
                *self == *old(self),
                forall|j: int| 0 <= j < i ==> self.traced_nodes@[j] != node,
            decreases self.traced_nodes@.len() - i,
        {
            if self.traced_nodes[i] == node {
                assert(self.traced_nodes@.contains(node));
                assert(with_nodes(self@.nodes, seq![node]) == with_node(
                    with_nodes(self@.nodes, seq![node].drop_last()),
                    node,
                ));
                assert(seq![node].drop_last() =~= Seq::<GcPtr>::empty());
                return;
            }
            i = i + 1;
        }
        self.traced_nodes.push(node);
    }

    /// Submits the node of a typed reference.
    #[inline(always)]
    pub fn add<T>(&mut self, gc_ref: GcRef<T>)
        ensures
            final(self)@ == old(self)@.add_all(seq![gc_ref.ptr()]),
    {
        self.add_node(gc_ref.node_ptr());
    }

    /// Takes the collected nodes out; the context is empty afterwards.
    #[inline(always)]
    pub fn take_nodes(&mut self) -> (r: Vec<GcPtr>)
        ensures
            r@ == old(self)@.nodes,
            final(self)@ == (CtxView { nodes: Seq::empty(), ..old(self)@ }),
    {
        let mut out: Vec<GcPtr> = Vec::new();
        std::mem::swap(&mut out, &mut self.traced_nodes);
        out
    }
}

/// A typed reference to a node of a heap with payload type `T`.
#[derive(Debug)]
pub struct GcRef<T> {
    head_ptr: GcPtr,
    marker: core::marker::PhantomData<T>,
}

impl<T> GcRef<T> {
    /// The node that the reference denotes.
    pub closed spec fn ptr(self) -> GcPtr {
        self.head_ptr
    }

    /// The reference to a node.
    pub fn from_ptr(node: GcPtr) -> (r: Self)
        ensures
            r.ptr() == node,
    {
        GcRef { head_ptr: node, marker: core::marker::PhantomData }
    }

    /// The node that the reference denotes.
    #[inline(always)]
    pub fn node_ptr(&self) -> (r: GcPtr)
        ensures
            r == self.ptr(),
    {
        self.head_ptr
    }
}

impl<T> Clone for GcRef<T> {
    fn clone(&self) -> (r: Self)
        ensures
            r == *self,
    {
        *self
    }
}

impl<T> Copy for GcRef<T> {

}

impl<T> PartialEq for GcRef<T> {
    fn eq(&self, other: &Self) -> (r: bool) {
        self.head_ptr == other.head_ptr
    }
}

impl<T> vstd::std_specs::cmp::PartialEqSpecImpl for GcRef<T> {
    open spec fn obeys_eq_spec() -> bool {
        true
    }

    open spec fn eq_spec(&self, other: &Self) -> bool {
        self.ptr() == other.ptr()
    }
}

impl<T> Eq for GcRef<T> {

}

/// A value that can report the nodes it refers to directly.
pub trait GcTrace {
    /// The nodes referred to, in the order in which they are reported; none unless an
    /// implementation says otherwise.
    open spec fn refs(&self) -> Seq<GcPtr> {
        Seq::empty()
    }

    /// Submits every node that the value refers to directly.
    fn trace(&self, gcx: &mut GcTraceCtx)
        ensures
            final(gcx)@ == old(gcx)@.add_all(self.refs()),
    ;

    /// The nodes referred to, each of them once.
    fn gc_children(&self, opaque: usize) -> (r: Vec<GcPtr>)
        ensures
            r@ == with_nodes(Seq::empty(), self.refs()),
    {
        let mut gcx = GcTraceCtx::new(64, opaque);
        self.trace(&mut gcx);
        gcx.take_nodes()
    }
}

/// A function that submits nodes to a trace context.
pub trait GcTraceFn: Fn(&mut GcTraceCtx) {

}

impl<C: Fn(&mut GcTraceCtx)> GcTraceFn for C {

}

/// A value that can be the payload of a node.
pub trait GcNode: GcTrace {
    /// Id of the value's data type: its position in the type table of the heap; zero unless an
    /// implementation says otherwise.
    open spec fn spec_type_id(&self) -> u8 {
        0
    }

    /// Id of the value's data type: its position in the type table of the heap.
    fn gc_type_id(&self) -> (r: u8)
        ensures
            r == self.spec_type_id(),
    ;
}

/// The concatenation of what the members of a sequence refer to.
pub open spec fn refs_of_all<T: GcTrace>(items: Seq<T>) -> Seq<GcPtr>
    decreases items.len(),
{
    if items.len() == 0 {
        Seq::empty()
    } else {
        refs_of_all(items.drop_last()) + items.last().refs()
    }
}

proof fn lemma_refs_of_all_next<T: GcTrace>(ctx: CtxView, items: Seq<T>, i: int)
    requires
        0 <= i < items.len(),
    ensures
        ctx.add_all(refs_of_all(items.take(i + 1))) == ctx.add_all(
            refs_of_all(items.take(i)),
        ).add_all(items[i].refs()),
{
    assert(items.take(i + 1).drop_last() =~= items.take(i));
    assert(items.take(i + 1).last() == items[i]);
    lemma_with_nodes_concat(ctx.nodes, refs_of_all(items.take(i)), items[i].refs());
}

impl GcTrace for u8 {
    open spec fn refs(&self) -> Seq<GcPtr> {
        Seq::empty()
    }

    #[inline(always)]
    fn trace(&self, _gcx: &mut GcTraceCtx) {
    }
}

impl GcTrace for u16 {
    open spec fn refs(&self) -> Seq<GcPtr> {
        Seq::empty()
    }

    #[inline(always)]
    fn trace(&self, _gcx: &mut GcTraceCtx) {
    }
}

impl GcTrace for u32 {
    open spec fn refs(&self) -> Seq<GcPtr> {
        Seq::empty()
    }

    #[inline(always)]
    fn trace(&self, _gcx: &mut GcTraceCtx) {
    }
}

impl GcTrace for u64 {
    open spec fn refs(&self) -> Seq<GcPtr> {
        Seq::empty()
    }

    #[inline(always)]
    fn trace(&self, _gcx: &mut GcTraceCtx) {
    }
}

impl GcTrace for u128 {
    open spec fn refs(&self) -> Seq<GcPtr> {
        Seq::empty()
    }

    #[inline(always)]
    fn trace(&self, _gcx: &mut GcTraceCtx) {
    }
}

impl GcTrace for i8 {
    open spec fn refs(&self) -> Seq<GcPtr> {
        Seq::empty()
    }

    #[inline(always)]
    fn trace(&self, _gcx: &mut GcTraceCtx) {
    }
}

impl GcTrace for i16 {
    open spec fn refs(&self) -> Seq<GcPtr> {
        Seq::empty()
    }

    #[inline(always)]
    fn trace(&self, _gcx: &mut GcTraceCtx) {
    }
}

impl GcTrace for i32 {
    open spec fn refs(&self) -> Seq<GcPtr> {
        Seq::empty()
    }

    #[inline(always)]
    fn trace(&self, _gcx: &mut GcTraceCtx) {
    }
}

impl GcTrace for i64 {
    open spec fn refs(&self) -> Seq<GcPtr> {
        Seq::empty()
    }

    #[inline(always)]
    fn trace(&self, _gcx: &mut GcTraceCtx) {
    }
}

impl GcTrace for i128 {
    open spec fn refs(&self) -> Seq<GcPtr> {
        Seq::empty()
    }

    #[inline(always)]
    fn trace(&self, _gcx: &mut GcTraceCtx) {
    }
}

impl GcTrace for usize {
    open spec fn refs(&self) -> Seq<GcPtr> {
        Seq::empty()
    }

    #[inline(always)]
    fn trace(&self, _gcx: &mut GcTraceCtx) {
    }
}

impl GcTrace for isize {
    open spec fn refs(&self) -> Seq<GcPtr> {
        Seq::empty()
    }

    #[inline(always)]
    fn trace(&self, _gcx: &mut GcTraceCtx) {
    }
}

impl GcTrace for bool {
    open spec fn refs(&self) -> Seq<GcPtr> {
        Seq::empty()
    }

    #[inline(always)]
    fn trace(&self, _gcx: &mut GcTraceCtx) {
    }
}

impl GcTrace for char {
    open spec fn refs(&self) -> Seq<GcPtr> {
        Seq::empty()
    }

    #[inline(always)]
    fn trace(&self, _gcx: &mut GcTraceCtx) {
    }
}

impl GcTrace for String {
    open spec fn refs(&self) -> Seq<GcPtr> {
        Seq::empty()
    }

    #[inline(always)]
    fn trace(&self, _gcx: &mut GcTraceCtx) {
    }
}

impl GcTrace for str {
    open spec fn refs(&self) -> Seq<GcPtr> {
        Seq::empty()
    }

    #[inline(always)]
    fn trace(&self, _gcx: &mut GcTraceCtx) {
    }
}

impl GcTrace for &'static String {
    open spec fn refs(&self) -> Seq<GcPtr> {
        Seq::empty()
    }

    #[inline(always)]
    fn trace(&self, _gcx: &mut GcTraceCtx) {
    }
}

impl GcTrace for &'static str {
    open spec fn refs(&self) -> Seq<GcPtr> {
        Seq::empty()
    }

    #[inline(always)]
    fn trace(&self, _gcx: &mut GcTraceCtx) {
    }
}

impl<T: ?Sized> GcTrace for core::marker::PhantomData<T> {
    open spec fn refs(&self) -> Seq<GcPtr> {
        Seq::empty()
    }

    #[inline(always)]
    fn trace(&self, _gcx: &mut GcTraceCtx) {
    }
}

impl GcTrace for GcPtr {
    open spec fn refs(&self) -> Seq<GcPtr> {
        seq![*self]
    }

    #[inline(always)]
    fn trace(&self, gcx: &mut GcTraceCtx) {
        gcx.add_node(*self);
    }
}

impl<T> GcTrace for GcRef<T> {
    open spec fn refs(&self) -> Seq<GcPtr> {
        seq![self.ptr()]
    }

    #[inline(always)]
    fn trace(&self, gcx: &mut GcTraceCtx) {
        gcx.add(*self);
    }
}

impl<T: GcTrace + ?Sized> GcTrace for Box<T> {
    open spec fn refs(&self) -> Seq<GcPtr> {
        (**self).refs()
    }

    #[inline(always)]
    fn trace(&self, gcx: &mut GcTraceCtx) {
        (**self).trace(gcx);
    }
}

impl<T: GcTrace + ?Sized> GcTrace for std::rc::Rc<T> {
    open spec fn refs(&self) -> Seq<GcPtr> {
        (**self).refs()
    }

    #[inline(always)]
    fn trace(&self, gcx: &mut GcTraceCtx) {
        (**self).trace(gcx);
    }
}

impl<T: GcTrace + ?Sized> GcTrace for std::sync::Arc<T> {
    open spec fn refs(&self) -> Seq<GcPtr> {
        (**self).refs()
    }

    #[inline(always)]
    fn trace(&self, gcx: &mut GcTraceCtx) {
        (**self).trace(gcx);
    }
}

impl<T: GcTrace> GcTrace for [T] {
    open spec fn refs(&self) -> Seq<GcPtr> {
        refs_of_all(self@)
    }

    #[inline(always)]
    fn trace(&self, gcx: &mut GcTraceCtx) {
        let mut i: usize = 0;
        let n: usize = self.len();
        while i < n
            invariant
                i <= n,
                n == self@.len(),
                gcx@ == old(gcx)@.add_all(refs_of_all(self@.take(i as int))),
            decreases n - i,
        {
            self[i].trace(gcx);
            proof {
                lemma_refs_of_all_next(old(gcx)@, self@, i as int);
            }
            i = i + 1;
        }
        assert(self@.take(i as int) =~= self@);
    }
}

impl<T: GcTrace, const N: usize> GcTrace for [T; N] {
    open spec fn refs(&self) -> Seq<GcPtr> {
        refs_of_all(self@)
    }

    #[inline(always)]
    fn trace(&self, gcx: &mut GcTraceCtx) {
        let mut i: usize = 0;
        let n: usize = N;
        while i < n
            invariant
                i <= n,
                n == self@.len(),
                gcx@ == old(gcx)@.add_all(refs_of_all(self@.take(i as int))),
            decreases n - i,
        {
            self[i].trace(gcx);
            proof {
                lemma_refs_of_all_next(old(gcx)@, self@, i as int);
            }
            i = i + 1;
        }
        assert(self@.take(i as int) =~= self@);
    }
}

impl<T: GcTrace> GcTrace for Vec<T> {
    open spec fn refs(&self) -> Seq<GcPtr> {
        refs_of_all(self@)
    }

    #[inline(always)]
    fn trace(&self, gcx: &mut GcTraceCtx) {
        let mut i: usize = 0;
        let n: usize = self.len();
        while i < n
            invariant
                i <= n,
                n == self@.len(),
                gcx@ == old(gcx)@.add_all(refs_of_all(self@.take(i as int))),
            decreases n - i,
        {
            self[i].trace(gcx);
            proof {
                lemma_refs_of_all_next(old(gcx)@, self@, i as int);
            }
            i = i + 1;
        }
        assert(self@.take(i as int) =~= self@);
    }
}

impl<T: GcTrace> GcTrace for std::collections::VecDeque<T> {
    open spec fn refs(&self) -> Seq<GcPtr> {
        refs_of_all(self@)
    }

    #[inline(always)]
    fn trace(&self, gcx: &mut GcTraceCtx) {
        let mut i: usize = 0;
        let n: usize = self.len();
        while i < n
            invariant
                i <= n,
                n == self@.len(),
                gcx@ == old(gcx)@.add_all(refs_of_all(self@.take(i as int))),
            decreases n - i,
        {
            self[i].trace(gcx);
            proof {
                lemma_refs_of_all_next(old(gcx)@, self@, i as int);
            }
            i = i + 1;
        }
        assert(self@.take(i as int) =~= self@);
    }
}

impl<T: GcTrace> GcTrace for Option<T> {
    open spec fn refs(&self) -> Seq<GcPtr> {
        match self {
            Some(item) => item.refs(),
            None => Seq::empty(),
        }
    }

    #[inline(always)]
    fn trace(&self, gcx: &mut GcTraceCtx) {
        if let Some(item) = self {
            item.trace(gcx);
        }
    }
}

impl<T: GcTrace, E: GcTrace> GcTrace for Result<T, E> {
    open spec fn refs(&self) -> Seq<GcPtr> {
        match self {
            Ok(item) => item.refs(),
            Err(item) => item.refs(),
        }
    }

    #[inline(always)]
    fn trace(&self, gcx: &mut GcTraceCtx) {
        match self {
            Ok(item) => item.trace(gcx),
            Err(item) => item.trace(gcx),
        }
    }
}

impl<A: GcTrace> GcTrace for (A,) {
    open spec fn refs(&self) -> Seq<GcPtr> {
        self.0.refs()
    }

    #[inline(always)]
    fn trace(&self, gcx: &mut GcTraceCtx) {
        self.0.trace(gcx);
    }
}

impl<A: GcTrace, B: GcTrace> GcTrace for (A, B) {
    open spec fn refs(&self) -> Seq<GcPtr> {
        self.0.refs() + self.1.refs()
    }

    #[inline(always)]
    fn trace(&self, gcx: &mut GcTraceCtx) {
        self.0.trace(gcx);
        self.1.trace(gcx);
        proof {
            lemma_with_nodes_concat(
                old(gcx)@.nodes,
                self.0.refs(),
                self.1.refs(),
            );
        }
    }
}

impl<A: GcTrace, B: GcTrace, C: GcTrace> GcTrace for (A, B, C) {
    open spec fn refs(&self) -> Seq<GcPtr> {
        self.0.refs() + self.1.refs() + self.2.refs()
    }

    #[inline(always)]
    fn trace(&self, gcx: &mut GcTraceCtx) {
        self.0.trace(gcx);
        self.1.trace(gcx);
        self.2.trace(gcx);
        proof {
            lemma_with_nodes_concat(
                old(gcx)@.nodes,
                self.0.refs(),
                self.1.refs(),
            );
            lemma_with_nodes_concat(
                old(gcx)@.nodes,
                self.0.refs() + self.1.refs(),
                self.2.refs(),
            );
        }
    }
}

impl<A: GcTrace, B: GcTrace, C: GcTrace, D: GcTrace> GcTrace for (A, B, C, D) {
    open spec fn refs(&self) -> Seq<GcPtr> {
        self.0.refs() + self.1.refs() + self.2.refs() + self.3.refs()
    }

    #[inline(always)]
    fn trace(&self, gcx: &mut GcTraceCtx) {
        self.0.trace(gcx);
        self.1.trace(gcx);
        self.2.trace(gcx);
        self.3.trace(gcx);
        proof {
            lemma_with_nodes_concat(
                old(gcx)@.nodes,
                self.0.refs(),
                self.1.refs(),
            );
            lemma_with_nodes_concat(
                old(gcx)@.nodes,
                self.0.refs() + self.1.refs(),
                self.2.refs(),
            );
            lemma_with_nodes_concat(
                old(gcx)@.nodes,
                self.0.refs() + self.1.refs() + self.2.refs(),
                self.3.refs(),
            );
        }
    }
}

impl<A: GcTrace, B: GcTrace, C: GcTrace, D: GcTrace, E: GcTrace> GcTrace for (A, B, C, D, E) {
    open spec fn refs(&self) -> Seq<GcPtr> {
        self.0.refs() + self.1.refs() + self.2.refs() + self.3.refs() + self.4.refs()
    }

    #[inline(always)]
    fn trace(&self, gcx: &mut GcTraceCtx) {
        self.0.trace(gcx);
        self.1.trace(gcx);
        self.2.trace(gcx);
        self.3.trace(gcx);
        self.4.trace(gcx);
        proof {
            lemma_with_nodes_concat(
                old(gcx)@.nodes,
                self.0.refs(),
                self.1.refs(),
            );
            lemma_with_nodes_concat(
                old(gcx)@.nodes,
                self.0.refs() + self.1.refs(),
                self.2.refs(),
            );
            lemma_with_nodes_concat(
                old(gcx)@.nodes,
                self.0.refs() + self.1.refs() + self.2.refs(),
                self.3.refs(),
            );
            lemma_with_nodes_concat(
                old(gcx)@.nodes,
                self.0.refs() + self.1.refs() + self.2.refs() + self.3.refs(),
                self.4.refs(),
            );
        }
    }
}

impl<A: GcTrace, B: GcTrace, C: GcTrace, D: GcTrace, E: GcTrace, F: GcTrace> GcTrace for (A, B, C, D, E, F) {
    open spec fn refs(&self) -> Seq<GcPtr> {
        self.0.refs() + self.1.refs() + self.2.refs() + self.3.refs() + self.4.refs() + self.5.refs()
    }

    #[inline(always)]
    fn trace(&self, gcx: &mut GcTraceCtx) {
        self.0.trace(gcx);
        self.1.trace(gcx);
        self.2.trace(gcx);
        self.3.trace(gcx);
        self.4.trace(gcx);
        self.5.trace(gcx);
        proof {
            lemma_with_nodes_concat(
                old(gcx)@.nodes,
                self.0.refs(),
                self.1.refs(),
            );
            lemma_with_nodes_concat(
                old(gcx)@.nodes,
                self.0.refs() + self.1.refs(),
                self.2.refs(),
            );
            lemma_with_nodes_concat(
                old(gcx)@.nodes,
                self.0.refs() + self.1.refs() + self.2.refs(),
                self.3.refs(),
            );
            lemma_with_nodes_concat(
                old(gcx)@.nodes,
                self.0.refs() + self.1.refs() + self.2.refs() + self.3.refs(),
                self.4.refs(),
            );
            lemma_with_nodes_concat(
                old(gcx)@.nodes,
                self.0.refs() + self.1.refs() + self.2.refs() + self.3.refs() + self.4.refs(),
                self.5.refs(),
            );
        }
    }
}

impl<A: GcTrace, B: GcTrace, C: GcTrace, D: GcTrace, E: GcTrace, F: GcTrace, G: GcTrace> GcTrace for (A, B, C, D, E, F, G) {
    open spec fn refs(&self) -> Seq<GcPtr> {
        self.0.refs() + self.1.refs() + self.2.refs() + self.3.refs() + self.4.refs() + self.5.refs() + self.6.refs()
    }

    #[inline(always)]
    fn trace(&self, gcx: &mut GcTraceCtx) {
        self.0.trace(gcx);
        self.1.trace(gcx);
        self.2.trace(gcx);
        self.3.trace(gcx);
        self.4.trace(gcx);
        self.5.trace(gcx);
        self.6.trace(gcx);
        proof {
            lemma_with_nodes_concat(
                old(gcx)@.nodes,
                self.0.refs(),
                self.1.refs(),
            );
            lemma_with_nodes_concat(
                old(gcx)@.nodes,
                self.0.refs() + self.1.refs(),
                self.2.refs(),
            );
            lemma_with_nodes_concat(
                old(gcx)@.nodes,
                self.0.refs() + self.1.refs() + self.2.refs(),
                self.3.refs(),
            );
            lemma_with_nodes_concat(
                old(gcx)@.nodes,
                self.0.refs() + self.1.refs() + self.2.refs() + self.3.refs(),
                self.4.refs(),
            );
            lemma_with_nodes_concat(
                old(gcx)@.nodes,
                self.0.refs() + self.1.refs() + self.2.refs() + self.3.refs() + self.4.refs(),
                self.5.refs(),
            );
            lemma_with_nodes_concat(
                old(gcx)@.nodes,
                self.0.refs() + self.1.refs() + self.2.refs() + self.3.refs() + self.4.refs() + self.5.refs(),
                self.6.refs(),
            );
        }
    }
}

impl<A: GcTrace, B: GcTrace, C: GcTrace, D: GcTrace, E: GcTrace, F: GcTrace, G: GcTrace, H: GcTrace> GcTrace for (A, B, C, D, E, F, G, H) {
    open spec fn refs(&self) -> Seq<GcPtr> {
        self.0.refs() + self.1.refs() + self.2.refs() + self.3.refs() + self.4.refs() + self.5.refs() + self.6.refs() + self.7.refs()
    }

    #[inline(always)]
    fn trace(&self, gcx: &mut GcTraceCtx) {
        self.0.trace(gcx);
        self.1.trace(gcx);
        self.2.trace(gcx);
        self.3.trace(gcx);
        self.4.trace(gcx);
        self.5.trace(gcx);
        self.6.trace(gcx);
        self.7.trace(gcx);
        proof {
            lemma_with_nodes_concat(
                old(gcx)@.nodes,
                self.0.refs(),
                self.1.refs(),
            );
            lemma_with_nodes_concat(
                old(gcx)@.nodes,
                self.0.refs() + self.1.refs(),
                self.2.refs(),
            );
            lemma_with_nodes_concat(
                old(gcx)@.nodes,
                self.0.refs() + self.1.refs() + self.2.refs(),
                self.3.refs(),
            );
            lemma_with_nodes_concat(
                old(gcx)@.nodes,
                self.0.refs() + self.1.refs() + self.2.refs() + self.3.refs(),
                self.4.refs(),
            );
            lemma_with_nodes_concat(
                old(gcx)@.nodes,
                self.0.refs() + self.1.refs() + self.2.refs() + self.3.refs() + self.4.refs(),
                self.5.refs(),
            );
            lemma_with_nodes_concat(
                old(gcx)@.nodes,
                self.0.refs() + self.1.refs() + self.2.refs() + self.3.refs() + self.4.refs() + self.5.refs(),
                self.6.refs(),
            );
            lemma_with_nodes_concat(
                old(gcx)@.nodes,
                self.0.refs() + self.1.refs() + self.2.refs() + self.3.refs() + self.4.refs() + self.5.refs() + self.6.refs(),
                self.7.refs(),
            );
        }
    }
}

} // verus!
