//! Sizes, alignments and places in an arena.

use vstd::layout::{align_of, size_of};
use vstd::prelude::*;

use crate::arena::{first_fit, taken, ArenaView, Span};
use crate::gctype::{
    pass_in_use, spec_align_up, spec_layout_align, spec_layout_size, spec_payload_offset,
    RegistryView,
};
use crate::node::GcHead;

verus! {

/// Rounding up gives the least multiple of the alignment that is not below the value.
pub proof fn law_align_up(value: int, align: int)
    requires
        0 <= value,
        1 <= align,
    ensures
        value <= spec_align_up(value, align) < value + align,
        spec_align_up(value, align) % align == 0,
{
    let r = spec_align_up(value, align);
    let q = (value + align - 1) / align;
    vstd::arithmetic::div_mod::lemma_fundamental_div_mod(value + align - 1, align);
    vstd::arithmetic::div_mod::lemma_mod_bound(value + align - 1, align);
    assert(r == align * q) by (nonlinear_arith)
        requires
            r == q * align,
    ;
    vstd::arithmetic::div_mod::lemma_mod_multiples_basic(q, align);
}

/// A node holds its header, and behind it, at a place of its own alignment, its payload; its size
/// is a multiple of its alignment and wastes less than one step of it at the end.
pub proof fn law_node_layout<T>()
    requires
        align_of::<T>() >= 1,
        align_of::<GcHead>() >= 1,
    ensures
        size_of::<GcHead>() <= spec_payload_offset::<T>() < size_of::<GcHead>() + align_of::<T>(),
        spec_payload_offset::<T>() % (align_of::<T>() as int) == 0,
        spec_layout_align::<T>() >= align_of::<T>(),
        spec_layout_align::<T>() >= align_of::<GcHead>(),
        spec_layout_align::<T>() == align_of::<T>() || spec_layout_align::<T>() == align_of::<
            GcHead,
        >(),
        spec_payload_offset::<T>() + size_of::<T>() <= spec_layout_size::<T>()
            < spec_payload_offset::<T>() + size_of::<T>() + spec_layout_align::<T>(),
        spec_layout_size::<T>() % spec_layout_align::<T>() == 0,
{
    law_align_up(size_of::<GcHead>() as int, align_of::<T>() as int);
    law_align_up(spec_payload_offset::<T>() + size_of::<T>(), spec_layout_align::<T>());
}

/// The listed drop passes of a table are strictly increasing and exactly those of its types.
pub proof fn law_registry_passes(reg: RegistryView, pass: u8, i: int, j: int)
    requires
        reg.wf(),
    ensures
        reg.passes.contains(pass) <==> exists|k: int|
            0 <= k < reg.infos.len() && (#[trigger] reg.infos[k]).drop_pass == pass,
        0 <= i < j < reg.passes.len() ==> reg.passes[i] < reg.passes[j],
{
    if reg.passes.contains(pass) {
        let k = choose|k: int| 0 <= k < reg.passes.len() && reg.passes[k] == pass;
        assert(pass_in_use(reg.infos, reg.passes[k]));
    }
}

/// An allocation takes what was asked for, but at least two words.
pub proof fn law_taken(size: int)
    ensures
        taken(size) >= size,
        4 * taken(size) >= usize::BITS,
        taken(size) == size || 4 * taken(size) == usize::BITS,
{
    assert(usize::BITS % 4 == 0);
}

proof fn lemma_first_fit(free: Seq<Span>, need: int)
    ensures
        0 <= first_fit(free, need) <= free.len(),
        first_fit(free, need) < free.len() ==> free[first_fit(free, need)].len >= need,
        forall|k: int| 0 <= k < first_fit(free, need) ==> (#[trigger] free[k]).len < need,
    decreases free.len(),
{
    if free.len() > 0 && free[0].len < need {
        lemma_first_fit(free.drop_first(), need);
        assert forall|k: int| 0 <= k < first_fit(free, need) implies (#[trigger] free[k]).len
            < need by {
            if k > 0 {
                assert(free.drop_first()[k - 1] == free[k]);
            }
        }
    }
}

/// Where an allocation goes: to the first aligned offset at or above the frontier, if it ends
/// inside the arena there, and the frontier moves behind it. Else to the start of the first free
/// range that is long enough, which is free no more. Else it is refused and nothing changes.
pub proof fn law_arena_alloc(a: ArenaView, size: int, align: int)
    requires
        0 <= a.bump,
        1 <= align,
    ensures
        ({
            let r = a.alloc_offset(size, align);
            let b = a.after_alloc(size, align);
            &&& b.capacity == a.capacity
            &&& r is Some ==> b.live == a.live + 1
            &&& r is None ==> b == a
            &&& r is None ==> forall|k: int|
                0 <= k < a.free.len() ==> (#[trigger] a.free[k]).len < taken(size)
            &&& r is None ==> a.bump + align + taken(size) > a.capacity + 1
            &&& r matches Some(o) ==> {
                ||| {
                    &&& a.bump <= o < a.bump + align
                    &&& o % align == 0
                    &&& o + taken(size) <= a.capacity
                    &&& b.bump == o + taken(size)
                    &&& b.free == a.free
                }
                ||| exists|k: int|
                    {
                        &&& 0 <= k < a.free.len()
                        &&& (#[trigger] a.free[k]).start == o
                        &&& a.free[k].len >= taken(size)
                        &&& forall|m: int| 0 <= m < k ==> (#[trigger] a.free[m]).len < taken(size)
                        &&& b.free == a.free.remove(k)
                        &&& b.bump == a.bump
                        &&& a.bump + align + taken(size) > a.capacity + 1
                    }
            }
        }),
{
    law_align_up(a.bump, align);
    lemma_first_fit(a.free, taken(size));
    let i = first_fit(a.free, taken(size));
    if !a.bump_fits(size, align) && i < a.free.len() {
        assert(a.free[i].start == a.alloc_offset(size, align).unwrap());
    }
    if a.alloc_offset(size, align) is None {
        assert(i == a.free.len());
    }
}

/// A bump allocation that fits at the aligned frontier is never refused, nor put elsewhere.
pub proof fn law_arena_bumps(a: ArenaView, size: int, align: int, o: int)
    requires
        0 <= a.bump <= o < a.bump + align,
        1 <= align,
        o % align == 0,
        o + taken(size) <= a.capacity,
    ensures
        a.alloc_offset(size, align) == Some(o),
        a.after_alloc(size, align).bump == o + taken(size),
{
    law_align_up(a.bump, align);
    let r = spec_align_up(a.bump, align);
    assert(r == o) by (nonlinear_arith)
        requires
            1 <= align,
            a.bump <= o < a.bump + align,
            a.bump <= r < a.bump + align,
            o % align == 0,
            r % align == 0,
    {
        vstd::arithmetic::div_mod::lemma_fundamental_div_mod(o, align);
        vstd::arithmetic::div_mod::lemma_fundamental_div_mod(r, align);
        let x = o / align;
        let y = r / align;
        assert(o == align * x && r == align * y);
        if x < y {
            assert(align * y >= align * x + align);
        }
        if y < x {
            assert(align * x >= align * y + align);
        }
    }
}

/// Giving an allocation back: if it ends at the frontier, the frontier comes down to its start
/// and no hole is left; else the frontier stays and its bytes are one more hole. One allocation
/// less is in use, and nothing is free yet.
pub proof fn law_arena_collect(a: ArenaView, holes: Seq<Span>, offset: int, size: int)
    ensures
        ({
            let b = a.after_collect(offset, size);
            let h = a.holes_after(holes, offset, size);
            &&& b.capacity == a.capacity
            &&& b.free == a.free
            &&& a.live > 0 ==> b.live == a.live - 1
            &&& a.live <= 0 ==> b.live == 0
            &&& offset + taken(size) == a.bump ==> b.bump == offset && h == holes
            &&& offset + taken(size) != a.bump ==> {
                &&& b.bump == a.bump
                &&& h.len() == holes.len() + 1
                &&& h.last().start == offset
                &&& h.last().end() == offset + taken(size)
                &&& h.drop_last() == holes
            }
        }),
{
    assert(offset + taken(size) != a.bump ==> a.holes_after(holes, offset, size).drop_last()
        =~= holes);
}

/// The end of a sweep: an arena in which nothing is allocated starts anew; else the frontier stays
/// and exactly the bytes of the holes are free.
pub proof fn law_arena_swept(a: ArenaView, holes: Seq<Span>, top: int, offset: int)
    requires
        crate::arena::below(holes, top),
        crate::arena::all_apart(holes),
    ensures
        ({
            let b = a.after_sweep(holes);
            &&& b.capacity == a.capacity
            &&& b.live == a.live
            &&& a.live == 0 ==> b.bump == 0 && b.free.len() == 0
            &&& a.live != 0 ==> b.bump == a.bump && (crate::arena::covers(b.free, offset)
                <==> crate::arena::covers(holes, offset))
        }),
{
    crate::arena::law_free_list(holes, top, offset);
}

} // verus!
