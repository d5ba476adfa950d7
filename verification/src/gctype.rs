//! Memory layout of nodes and the table of payload types.

use vstd::arithmetic::div_mod::lemma_fundamental_div_mod;
use vstd::arithmetic::power2::{is_pow2, is_pow2_equiv, lemma_pow2, lemma_pow2_strictly_increases, pow2};
use vstd::bits::{lemma_usize_low_bits_mask_is_mod, low_bits_mask};
use vstd::layout::{align_of, layout_for_type_is_valid, size_of, valid_layout};
use vstd::prelude::*;

use crate::node::GcHead;

verus! {

/// The least multiple of `align` that is not below `value`.
pub open spec fn spec_align_up(value: int, align: int) -> int {
    ((value + align - 1) / align) * align
}

/// A power of two that fits in a `usize` is at most half of its range.
pub proof fn lemma_pow2_bound(align: usize)
    requires
        is_pow2(align as int),
    ensures
        align >= 1,
        align - 1 <= isize::MAX,
        exists|n: nat| n < usize::BITS && #[trigger] pow2(n) == align,
{
    is_pow2_equiv(align as int);
    let n = choose|n: nat| vstd::arithmetic::power::pow(2, n) == align as int;
    lemma_pow2(n);
    vstd::arithmetic::power2::lemma_pow2_pos(n);
    vstd::arithmetic::power2::lemma2_to64();
    vstd::arithmetic::power2::lemma2_to64_rest();
    assert(pow2(n) == align);
    if n >= usize::BITS {
        if n > usize::BITS {
            lemma_pow2_strictly_increases(usize::BITS as nat, n);
        }
    } else if n < usize::BITS - 1 {
        lemma_pow2_strictly_increases(n, (usize::BITS - 1) as nat);
    }
}

/// Rounds `value` up to a multiple of `align`, a power of two.
#[inline(always)]
pub fn align_up(value: usize, align: usize) -> (r: usize)
    requires
        is_pow2(align as int),
        value + align - 1 <= usize::MAX,
    ensures
        r == spec_align_up(value as int, align as int),
        value <= r < value + align,
        r % align == 0,
{
    proof {
        lemma_pow2_bound(align);
    }
    let mask: usize = align - 1;
    let x: usize = value + mask;
    let r: usize = x & !mask;
    proof {
        let n = choose|n: nat| n < usize::BITS && #[trigger] pow2(n) == align;
        lemma_usize_low_bits_mask_is_mod(x, n);
        assert(low_bits_mask(n) == mask);
        assert(x & mask == x % align);
        assert(x & !mask == x - (x & mask)) by (bit_vector);
        lemma_fundamental_div_mod(x as int, align as int);
        assert(r == (x as int / align as int) * align as int) by (nonlinear_arith)
            requires
                r == x - x % align,
                x as int == align as int * (x as int / align as int) + (x as int % align as int),
        ;
        vstd::arithmetic::div_mod::lemma_mod_multiples_basic(x as int / align as int, align as int);
    }
    r
}

proof fn lemma_pow2_by_mask(n: usize)
    requires
        n > 0,
    ensures
        is_pow2(n as int) <==> n & ((n - 1) as usize) == 0,
    decreases n,
{
    reveal(is_pow2);
    if n == 1 {
        assert(1usize & 0usize == 0) by (bit_vector);
    } else if n % 2 == 0 {
        let h: usize = n / 2;
        lemma_pow2_by_mask(h);
        let m: usize = (n - 1) as usize;
        let k: usize = (h - 1) as usize;
        assert((n & m == 0) <==> (h & k == 0)) by (bit_vector)
            requires
                n >= 2,
                n % 2 == 0,
                h == n / 2,
                m == n - 1,
                k == h - 1,
        ;
    } else {
        let m: usize = (n - 1) as usize;
        assert(n & m != 0) by (bit_vector)
            requires
                n > 1,
                n % 2 == 1,
                m == n - 1,
        ;
    }
}

/// Tells whether memory can be laid out with this size and alignment: the alignment is a power
/// of two and the size, rounded up to it, does not exceed `isize::MAX`.
pub fn layout_is_valid(size: usize, align: usize) -> (r: bool)
    ensures
        r == valid_layout(size, align),
{
    if align == 0 {
        proof {
            reveal(is_pow2);
        }
        return false;
    }
    proof {
        lemma_pow2_by_mask(align);
    }
    let max: usize = isize::MAX as usize;
    let rest: usize = max % align;
    assert(rest <= max) by {
        vstd::arithmetic::div_mod::lemma_mod_decreases(max as nat, align as nat);
    }
    (align & (align - 1)) == 0 && size <= max - rest
}

/// Where the payload of type `T` starts, counted from the start of the header.
pub open spec fn spec_payload_offset<T>() -> int {
    spec_align_up(size_of::<GcHead>() as int, align_of::<T>() as int)
}

/// Alignment of a node with a payload of type `T`.
pub open spec fn spec_layout_align<T>() -> int {
    if align_of::<GcHead>() > align_of::<T>() {
        align_of::<GcHead>() as int
    } else {
        align_of::<T>() as int
    }
}

/// Size of a node with a payload of type `T`.
pub open spec fn spec_layout_size<T>() -> int {
    spec_align_up(spec_payload_offset::<T>() + size_of::<T>(), spec_layout_align::<T>())
}

/// Offset of a payload of type `T` in its node: the header size rounded up to the alignment of
/// `T`.
#[inline(always)]
pub fn payload_offset_of<T>() -> (r: usize)
    ensures
        r == spec_payload_offset::<T>(),
        r >= size_of::<GcHead>(),
        r % (align_of::<T>() as usize) == 0,
{
    layout_for_type_is_valid::<GcHead>();
    layout_for_type_is_valid::<T>();
    let align: usize = std::mem::align_of::<T>();
    proof {
        lemma_pow2_bound(align);
    }
    align_up(std::mem::size_of::<GcHead>(), align)
}

/// Alignment of a node with a payload of type `T`: the larger one of the header's and the
/// payload's.
#[inline(always)]
pub fn layout_align_of<T>() -> (r: usize)
    ensures
        r == spec_layout_align::<T>(),
        is_pow2(r as int),
{
    layout_for_type_is_valid::<GcHead>();
    layout_for_type_is_valid::<T>();
    let head_align: usize = std::mem::align_of::<GcHead>();
    let payload_align: usize = std::mem::align_of::<T>();
    if head_align > payload_align {
        head_align
    } else {
        payload_align
    }
}

/// Size of a node with a payload of type `T`: header, padding and payload, rounded up to the
/// node's alignment.
#[inline(always)]
pub fn layout_size_of<T>() -> (r: usize)
    requires
        spec_payload_offset::<T>() + size_of::<T>() + spec_layout_align::<T>() - 1 <= usize::MAX,
    ensures
        r == spec_layout_size::<T>(),
        r % (spec_layout_align::<T>() as usize) == 0,
        r >= spec_payload_offset::<T>() + size_of::<T>(),
{
    let align: usize = layout_align_of::<T>();
    let offset: usize = payload_offset_of::<T>();
    proof {
        lemma_pow2_bound(align);
    }
    align_up(offset + std::mem::size_of::<T>(), align)
}

/// What the heap knows of one payload type.
#[derive(Debug, Copy, Clone)]
pub struct GcTypeInfo {
    /// Size of the payload.
    pub size: usize,
    /// Offset of the payload in its node.
    pub payload_offset: usize,
    /// Size of the whole node.
    pub layout_size: usize,
    /// Alignment of the whole node.
    pub layout_align: usize,
    /// Dropping a payload of this type runs code.
    pub needs_drop: bool,
    /// Nodes of types with a lower pass are disposed of first.
    pub drop_pass: u8,
}

impl GcTypeInfo {
    /// The entry for payload type `T`.
    pub fn of<T>(needs_drop: bool, drop_pass: u8) -> (r: Self)
        requires
            spec_payload_offset::<T>() + size_of::<T>() + spec_layout_align::<T>() - 1
                <= usize::MAX,
        ensures
            r.size == size_of::<T>(),
            r.payload_offset == spec_payload_offset::<T>(),
            r.layout_size == spec_layout_size::<T>(),
            r.layout_align == spec_layout_align::<T>(),
            r.needs_drop == needs_drop,
            r.drop_pass == drop_pass,
    {
        GcTypeInfo {
            size: std::mem::size_of::<T>(),
            payload_offset: payload_offset_of::<T>(),
            layout_size: layout_size_of::<T>(),
            layout_align: layout_align_of::<T>(),
            needs_drop,
            drop_pass,
        }
    }

    /// Size and alignment of a node of this type.
    #[inline(always)]
    pub fn layout(&self) -> (r: (usize, usize))
        ensures
            r == (self.layout_size, self.layout_align),
    {
        (self.layout_size, self.layout_align)
    }

    /// Address of the payload of the node at address `node`.
    #[inline(always)]
    pub fn payload_ptr(&self, node: usize) -> (r: usize)
        requires
            node + self.payload_offset <= usize::MAX,
        ensures
            r == node + self.payload_offset,
    {
        node + self.payload_offset
    }
}

/// Some type has the drop pass `pass`.
pub open spec fn pass_in_use(infos: Seq<GcTypeInfo>, pass: u8) -> bool {
    exists|k: int| 0 <= k < infos.len() && (#[trigger] infos[k]).drop_pass == pass
}

/// The payload types, indexed by data type id, and the drop passes in use.
#[verifier::ext_equal]
pub struct RegistryView {
    pub infos: Seq<GcTypeInfo>,
    pub passes: Seq<u8>,
}

impl RegistryView {
    /// The passes are listed in ascending order without repetition, and they are exactly those
    /// of the listed types.
    pub open spec fn wf(self) -> bool {
        &&& forall|i: int, j: int|
            0 <= i < j < self.passes.len() ==> #[trigger] self.passes[i] < #[trigger] self.passes[j]
        &&& forall|k: int|
            0 <= k < self.infos.len() ==> self.passes.contains(
                (#[trigger] self.infos[k]).drop_pass,
            )
        &&& forall|i: int|
            0 <= i < self.passes.len() ==> pass_in_use(self.infos, #[trigger] self.passes[i])
    }
}

/// Table of the payload types of a heap.
pub struct GcTypeRegistry {
    type_info_list: Vec<GcTypeInfo>,
    drop_passes: Vec<u8>,
}

impl View for GcTypeRegistry {
    type V = RegistryView;

    closed spec fn view(&self) -> RegistryView {
        RegistryView { infos: self.type_info_list@, passes: self.drop_passes@ }
    }
}

impl GcTypeRegistry {
    /// A table without any type.
    pub fn empty() -> (r: Self)
        ensures
            r@.wf(),
            r@.infos == Seq::<GcTypeInfo>::empty(),
            r@.passes == Seq::<u8>::empty(),
    {
        GcTypeRegistry { type_info_list: Vec::new(), drop_passes: Vec::new() }
    }

    /// The table of the given types; the id of a type is its position.
    pub fn new(types: Vec<GcTypeInfo>) -> (r: Self)
        ensures
            r@.wf(),
            r@.infos == types@,
    {
        let drop_passes: Vec<u8> = collect_passes(&types);
        GcTypeRegistry { type_info_list: types, drop_passes }
    }

    /// Number of types.
    pub fn len(&self) -> (r: usize)
        ensures
            r == self@.infos.len(),
    {
        self.type_info_list.len()
    }

    /// The entry of type `dtype`.
    pub fn info(&self, dtype: u8) -> (r: &GcTypeInfo)
        requires
            dtype < self@.infos.len(),
        ensures
            *r == self@.infos[dtype as int],
    {
        &self.type_info_list[dtype as usize]
    }

    /// The drop passes in use, in ascending order.
    pub fn drop_passes(&self) -> (r: &Vec<u8>)
        ensures
            r@ == self@.passes,
    {
        &self.drop_passes
    }
}

/// The passes of the given types, in ascending order and each of them once.
pub fn collect_passes(types: &Vec<GcTypeInfo>) -> (r: Vec<u8>)
    ensures
        (RegistryView { infos: types@, passes: r@ }).wf(),
{
    let mut out: Vec<u8> = Vec::new();
    let mut pass: u16 = 0;
    while pass < 256
        invariant
            pass <= 256,
            forall|i: int, j: int| 0 <= i < j < out@.len() ==> #[trigger] out@[i] < #[trigger] out@[j],
            forall|i: int| 0 <= i < out@.len() ==> #[trigger] out@[i] < pass,
            forall|k: int|
                0 <= k < types@.len() && types@[k].drop_pass < pass ==> out@.contains(
                    (#[trigger] types@[k]).drop_pass,
                ),
            forall|i: int|
                0 <= i < out@.len() ==> pass_in_use(types@, #[trigger] out@[i]),
        decreases 256 - pass,
    {
        let p: u8 = pass as u8;
        let mut used: bool = false;
        let mut k: usize = 0;
        while k < types.len() && !used
            invariant
                k <= types@.len(),
                !used ==> forall|j: int| 0 <= j < k ==> (#[trigger] types@[j]).drop_pass != p,
                used ==> pass_in_use(types@, p),
            decreases types@.len() - k + (if used { 0int } else { 1 }),
        {
            if types[k].drop_pass == p {
                used = true;
            } else {
                k = k + 1;
            }
        }
        let ghost before = out@;
        if used {
            out.push(p);
        }
        proof {
            assert forall|k: int|
                0 <= k < types@.len() && types@[k].drop_pass < pass + 1 implies out@.contains(
                (#[trigger] types@[k]).drop_pass,
            ) by {
                if types@[k].drop_pass < pass {
                    let i = choose|i: int|
                        0 <= i < before.len() && before[i] == types@[k].drop_pass;
                    assert(out@[i] == before[i]);
                } else {
                    assert(out@[out@.len() - 1] == p);
                }
            }
        }
        pass = pass + 1;
    }
    out
}

} // verus!
