//! Node handles and node headers.

use vstd::prelude::*;

use crate::gctype::GcTypeRegistry;
use crate::weak_id::GcWeakRawId;

verus! {

/// Names a node: the heap it lives in and the slot it occupies there.
///
/// A slot is reused after its node has been disposed of, so a handle is meaningful only while
/// its node is live.
#[derive(Debug, Clone, Copy, PartialEq, Eq, Hash, Structural)]
pub struct GcPtr {
    pub heap: u32,
    pub slot: usize,
}

/// Id of a partition: its position in the heap's partition table.
#[derive(Debug, Clone, Copy, PartialEq, Eq, Hash, Structural)]
pub struct GcPartitionId(pub u16);

/// Marking state of a node.
#[derive(Debug, Clone, Copy, PartialEq, Eq, Structural)]
pub enum GcTriColor {
    /// Not reached yet.
    White,
    /// Reached, references not followed yet.
    Gray,
    /// Reached, references followed.
    Black,
}

impl GcTriColor {
    /// The two-bit code of a color.
    pub open spec fn spec_code(self) -> u32 {
        match self {
            GcTriColor::White => 0,
            GcTriColor::Gray => 1,
            GcTriColor::Black => 2,
        }
    }

    /// The two-bit code of a color.
    pub fn code(self) -> (r: u32)
        ensures
            r == self.spec_code(),
    {
        match self {
            GcTriColor::White => 0,
            GcTriColor::Gray => 1,
            GcTriColor::Black => 2,
        }
    }

    /// The color with the given code; codes above two are refused.
    pub fn from_code(value: u32) -> (r: Result<GcTriColor, &'static str>)
        ensures
            r is Ok <==> value <= 2,
            r matches Ok(c) ==> c.spec_code() == value,
            r matches Err(e) ==> e@ == "Invalid value for TriColor"@,
    {
        if value == 0 {
            Ok(GcTriColor::White)
        } else if value == 1 {
            Ok(GcTriColor::Gray)
        } else if value == 2 {
            Ok(GcTriColor::Black)
        } else {
            Err("Invalid value for TriColor")
        }
    }
}

/// A flag of a node header.
#[derive(Debug, Clone, Copy, PartialEq, Eq, Structural)]
pub enum GcNodeFlag {
    /// The node's memory belongs to the arena of its partition.
    ArenaAlloc,
    /// The node was put on the gray list of its partition.
    GrayListed,
    /// The node is a root.
    Root,
    /// The node is held by a scope.
    Local,
    /// The node was visited by the current traversal.
    TraverseVisited,
}

impl GcNodeFlag {
    /// The bit that stands for the flag in the attribute word.
    pub open spec fn spec_bits(self) -> u32 {
        match self {
            GcNodeFlag::ArenaAlloc => 0x08,
            GcNodeFlag::GrayListed => 0x10,
            GcNodeFlag::Root => 0x20,
            GcNodeFlag::Local => 0x40,
            GcNodeFlag::TraverseVisited => 0x80,
        }
    }

    /// The bit that stands for the flag in the attribute word.
    pub fn bits(self) -> (r: u32)
        ensures
            r == self.spec_bits(),
    {
        match self {
            GcNodeFlag::ArenaAlloc => 0x08,
            GcNodeFlag::GrayListed => 0x10,
            GcNodeFlag::Root => 0x20,
            GcNodeFlag::Local => 0x40,
            GcNodeFlag::TraverseVisited => 0x80,
        }
    }
}

/// What a node header says, field by field.
#[verifier::ext_equal]
pub struct HeadView {
    pub color: GcTriColor,
    pub arena: bool,
    pub listed: bool,
    pub root: bool,
    pub local: bool,
    pub visited: bool,
    pub dtype: u8,
    pub partition: GcPartitionId,
    pub xref: GcPartitionId,
    pub weak: GcWeakRawId,
    pub dbg: Seq<char>,
}

impl HeadView {
    /// Header of a fresh node: white, no flag set, no weak reference.
    pub open spec fn fresh(dtype: u8, partition: GcPartitionId) -> HeadView {
        HeadView {
            color: GcTriColor::White,
            arena: false,
            listed: false,
            root: false,
            local: false,
            visited: false,
            dtype,
            partition,
            xref: GcPartitionId(0),
            weak: GcWeakRawId::spec_null(),
            dbg: Seq::empty(),
        }
    }

    /// Roots and nodes held by a scope are kept by every collection.
    pub open spec fn pinned(self) -> bool {
        self.root || self.local
    }

    /// The flag `f` of the header.
    pub open spec fn flag(self, f: GcNodeFlag) -> bool {
        match f {
            GcNodeFlag::ArenaAlloc => self.arena,
            GcNodeFlag::GrayListed => self.listed,
            GcNodeFlag::Root => self.root,
            GcNodeFlag::Local => self.local,
            GcNodeFlag::TraverseVisited => self.visited,
        }
    }

    /// The header with flag `f` set to `b`.
    pub open spec fn with_flag(self, f: GcNodeFlag, b: bool) -> HeadView {
        match f {
            GcNodeFlag::ArenaAlloc => HeadView { arena: b, ..self },
            GcNodeFlag::GrayListed => HeadView { listed: b, ..self },
            GcNodeFlag::Root => HeadView { root: b, ..self },
            GcNodeFlag::Local => HeadView { local: b, ..self },
            GcNodeFlag::TraverseVisited => HeadView { visited: b, ..self },
        }
    }
}

/// Header of a node.
///
/// `attrs` packs a constant sentinel byte (bits 24-31), the data type id (bits 8-15), the flags
/// (bits 3-7) and the color (bits 0-1). `partition` packs the cross reference partition (upper
/// half) and the partition (lower half).
pub struct GcHead {
    attrs: u32,
    partition: u32,
    weak_id: GcWeakRawId,
    dbg_string: String,
}

spec fn color_of_code(code: u32) -> GcTriColor {
    if code == 0 {
        GcTriColor::White
    } else if code == 1 {
        GcTriColor::Gray
    } else {
        GcTriColor::Black
    }
}

proof fn lemma_set_color_bits(a: u32, c: u32)
    by (bit_vector)
    requires
        c <= 2,
    ensures
        ((a & !3u32) | c) & 3u32 == c,
        ((a & !3u32) | c) & 0x08u32 == a & 0x08u32,
        ((a & !3u32) | c) & 0x10u32 == a & 0x10u32,
        ((a & !3u32) | c) & 0x20u32 == a & 0x20u32,
        ((a & !3u32) | c) & 0x40u32 == a & 0x40u32,
        ((a & !3u32) | c) & 0x80u32 == a & 0x80u32,
        ((a & !3u32) | c) & 0xFF00u32 == a & 0xFF00u32,
        ((a & !3u32) | c) >> 24 == a >> 24,
{
}

proof fn lemma_insert_bits(a: u32, m: u32)
    by (bit_vector)
    requires
        m == 0x08u32 || m == 0x10u32 || m == 0x20u32 || m == 0x40u32 || m == 0x80u32,
    ensures
        (a | m) & m == m,
        (a | m) & 3u32 == a & 3u32,
        m != 0x08u32 ==> (a | m) & 0x08u32 == a & 0x08u32,
        m != 0x10u32 ==> (a | m) & 0x10u32 == a & 0x10u32,
        m != 0x20u32 ==> (a | m) & 0x20u32 == a & 0x20u32,
        m != 0x40u32 ==> (a | m) & 0x40u32 == a & 0x40u32,
        m != 0x80u32 ==> (a | m) & 0x80u32 == a & 0x80u32,
        (a | m) & 0xFF00u32 == a & 0xFF00u32,
        (a | m) >> 24 == a >> 24,
{
}

proof fn lemma_remove_bits(a: u32, m: u32)
    by (bit_vector)
    requires
        m == 0x08u32 || m == 0x10u32 || m == 0x20u32 || m == 0x40u32 || m == 0x80u32,
    ensures
        (a & !m) & m == 0,
        (a & !m) & 3u32 == a & 3u32,
        m != 0x08u32 ==> (a & !m) & 0x08u32 == a & 0x08u32,
        m != 0x10u32 ==> (a & !m) & 0x10u32 == a & 0x10u32,
        m != 0x20u32 ==> (a & !m) & 0x20u32 == a & 0x20u32,
        m != 0x40u32 ==> (a & !m) & 0x40u32 == a & 0x40u32,
        m != 0x80u32 ==> (a & !m) & 0x80u32 == a & 0x80u32,
        (a & !m) & 0xFF00u32 == a & 0xFF00u32,
        (a & !m) >> 24 == a >> 24,
{
}

proof fn lemma_fresh_bits(d: u8)
    by (bit_vector)
    ensures
        (0xFF00_0000u32 | ((d as u32) << 8)) & 3u32 == 0,
        (0xFF00_0000u32 | ((d as u32) << 8)) & 0x08u32 == 0,
        (0xFF00_0000u32 | ((d as u32) << 8)) & 0x10u32 == 0,
        (0xFF00_0000u32 | ((d as u32) << 8)) & 0x20u32 == 0,
        (0xFF00_0000u32 | ((d as u32) << 8)) & 0x40u32 == 0,
        (0xFF00_0000u32 | ((d as u32) << 8)) & 0x80u32 == 0,
        (((0xFF00_0000u32 | ((d as u32) << 8)) & 0xFF00u32) >> 8) as u8 == d,
        (0xFF00_0000u32 | ((d as u32) << 8)) >> 24 == 0xFF,
{
}

proof fn lemma_partition_bits(p: u32, id: u16)
    by (bit_vector)
    ensures
        (((p & 0xFFFF_0000u32) | (id as u32)) & 0xFFFFu32) as u16 == id,
        (((p & 0xFFFF_0000u32) | (id as u32)) >> 16) as u16 == (p >> 16) as u16,
        (((p & 0xFFFFu32) | ((id as u32) << 16)) & 0xFFFFu32) as u16 == (p & 0xFFFFu32) as u16,
        (((p & 0xFFFFu32) | ((id as u32) << 16)) >> 16) as u16 == id,
        ((p & 0xFFFFu32) & 0xFFFFu32) as u16 == (p & 0xFFFFu32) as u16,
        ((p & 0xFFFFu32) >> 16) as u16 == 0,
        ((id as u32) & 0xFFFFu32) as u16 == id,
        ((id as u32) >> 16) as u16 == 0,
{
}

impl View for GcHead {
    type V = HeadView;

    closed spec fn view(&self) -> HeadView {
        HeadView {
            color: color_of_code(self.attrs & 3u32),
            arena: self.attrs & 0x08u32 == 0x08u32,
            listed: self.attrs & 0x10u32 == 0x10u32,
            root: self.attrs & 0x20u32 == 0x20u32,
            local: self.attrs & 0x40u32 == 0x40u32,
            visited: self.attrs & 0x80u32 == 0x80u32,
            dtype: ((self.attrs & 0xFF00u32) >> 8) as u8,
            partition: GcPartitionId((self.partition & 0xFFFFu32) as u16),
            xref: GcPartitionId((self.partition >> 16) as u16),
            weak: self.weak_id,
            dbg: self.dbg_string@,
        }
    }
}

impl GcHead {
    /// The header's bits are in order: the color code is one of the three colors and the
    /// sentinel byte is in place.
    pub closed spec fn wf(&self) -> bool {
        &&& self.attrs & 3u32 <= 2
        &&& self.attrs >> 24 == 0xFF
    }

    /// Header of a fresh node: white, no flag set, no weak reference.
    pub fn new(dtype: u8, partition: GcPartitionId) -> (r: Self)
        ensures
            r.wf(),
            r@ == HeadView::fresh(dtype, partition),
    {
        proof {
            lemma_fresh_bits(dtype);
            lemma_partition_bits(0, partition.0);
        }
        GcHead {
            attrs: 0xFF00_0000u32 | ((dtype as u32) << 8),
            partition: partition.0 as u32,
            weak_id: GcWeakRawId::null(),
            dbg_string: String::new(),
        }
    }

    /// Id of the payload's data type.
    #[inline(always)]
    pub fn dtype(&self) -> (r: u8)
        ensures
            r == self@.dtype,
    {
        ((self.attrs & 0xFF00u32) >> 8) as u8
    }

    /// The node's color.
    #[inline(always)]
    pub fn color(&self) -> (r: GcTriColor)
        requires
            self.wf(),
        ensures
            r == self@.color,
    {
        let code: u32 = self.attrs & 3u32;
        match GcTriColor::from_code(code) {
            Ok(c) => c,
            Err(_) => GcTriColor::White,
        }
    }

    /// Sets the color and leaves the rest of the header alone.
    #[inline(always)]
    pub fn set_color(&mut self, color: GcTriColor)
        requires
            old(self).wf(),
        ensures
            final(self).wf(),
            final(self)@ == (HeadView { color, ..old(self)@ }),
    {
        let code: u32 = color.code();
        proof {
            lemma_set_color_bits(self.attrs, code);
        }
        self.attrs = (self.attrs & !3u32) | code;
    }

    /// The flag bits of the header, as they stand in the attribute word.
    #[inline(always)]
    pub fn flags(&self) -> (r: u32)
        ensures
            forall|f: GcNodeFlag| #[trigger] self@.flag(f) <==> r & f.spec_bits() == f.spec_bits(),
            r & !0xF8u32 == 0,
    {
        let a: u32 = self.attrs;
        let r: u32 = a & 0xF8u32;
        assert((a & 0xF8u32) & 0x08u32 == a & 0x08u32 && (a & 0xF8u32) & 0x10u32 == a & 0x10u32
            && (a & 0xF8u32) & 0x20u32 == a & 0x20u32 && (a & 0xF8u32) & 0x40u32 == a & 0x40u32
            && (a & 0xF8u32) & 0x80u32 == a & 0x80u32 && (a & 0xF8u32) & !0xF8u32 == 0)
            by (bit_vector);
        r
    }

    /// Sets a flag.
    #[inline(always)]
    pub fn insert_flag(&mut self, flag: GcNodeFlag)
        requires
            old(self).wf(),
        ensures
            final(self).wf(),
            final(self)@ == old(self)@.with_flag(flag, true),
    {
        let m: u32 = flag.bits();
        proof {
            lemma_insert_bits(self.attrs, m);
        }
        self.attrs = self.attrs | m;
    }

    /// Clears a flag.
    #[inline(always)]
    pub fn remove_flag(&mut self, flag: GcNodeFlag)
        requires
            old(self).wf(),
        ensures
            final(self).wf(),
            final(self)@ == old(self)@.with_flag(flag, false),
    {
        let m: u32 = flag.bits();
        proof {
            lemma_remove_bits(self.attrs, m);
        }
        self.attrs = self.attrs & !m;
    }

    /// Tells whether a flag is set.
    #[inline(always)]
    pub fn contains_flag(&self, flag: GcNodeFlag) -> (r: bool)
        ensures
            r == self@.flag(flag),
    {
        let m: u32 = flag.bits();
        (self.attrs & m) == m
    }

    /// Tells whether the node is a root.
    #[inline(always)]
    pub fn is_root(&self) -> (r: bool)
        ensures
            r == self@.root,
    {
        self.contains_flag(GcNodeFlag::Root)
    }

    /// Tells whether the node is held by a scope.
    #[inline(always)]
    pub fn is_local(&self) -> (r: bool)
        ensures
            r == self@.local,
    {
        self.contains_flag(GcNodeFlag::Local)
    }

    /// Tells whether the node is a root or held by a scope.
    #[inline]
    pub fn is_root_or_local(&self) -> (r: bool)
        ensures
            r == (self@.root || self@.local),
    {
        let f: u32 = self.flags();
        assert(self@.flag(GcNodeFlag::Root) == self@.root);
        assert(self@.flag(GcNodeFlag::Local) == self@.local);
        assert((f & 0x60u32 != 0) == (f & 0x20u32 == 0x20u32 || f & 0x40u32 == 0x40u32))
            by (bit_vector);
        f & 0x60u32 != 0
    }

    /// Tells whether the current traversal has visited the node.
    #[inline(always)]
    pub fn traverse_visited(&self) -> (r: bool)
        ensures
            r == self@.visited,
    {
        self.contains_flag(GcNodeFlag::TraverseVisited)
    }

    /// Sets or clears the traversal mark.
    #[inline(always)]
    pub fn set_traverse_visited(&mut self, visited: bool)
        requires
            old(self).wf(),
        ensures
            final(self).wf(),
            final(self)@ == (HeadView { visited, ..old(self)@ }),
    {
        if visited {
            self.insert_flag(GcNodeFlag::TraverseVisited);
        } else {
            self.remove_flag(GcNodeFlag::TraverseVisited);
        }
    }

    /// Tells whether the node was put on the gray list of its partition.
    #[inline(always)]
    pub fn is_gray_listed(&self) -> (r: bool)
        ensures
            r == self@.listed,
    {
        self.contains_flag(GcNodeFlag::GrayListed)
    }

    /// Sets or clears the gray list mark.
    #[inline(always)]
    pub fn set_gray_listed(&mut self, listed: bool)
        requires
            old(self).wf(),
        ensures
            final(self).wf(),
            final(self)@ == (HeadView { listed, ..old(self)@ }),
    {
        if listed {
            self.insert_flag(GcNodeFlag::GrayListed);
        } else {
            self.remove_flag(GcNodeFlag::GrayListed);
        }
    }

    /// Id of the partition that the node belongs to.
    #[inline(always)]
    pub fn partition_id(&self) -> (r: GcPartitionId)
        ensures
            r == self@.partition,
    {
        GcPartitionId((self.partition & 0xFFFFu32) as u16)
    }

    /// Moves the header to another partition id; the cross reference stays.
    #[inline(always)]
    pub fn set_partition_id(&mut self, id: GcPartitionId)
        requires
            old(self).wf(),
        ensures
            final(self).wf(),
            final(self)@ == (HeadView { partition: id, ..old(self)@ }),
    {
        proof {
            lemma_partition_bits(self.partition, id.0);
        }
        self.partition = (self.partition & 0xFFFF_0000u32) | (id.0 as u32);
    }

    /// Partition recorded as cross reference; zero when none is recorded.
    pub fn xref(&self) -> (r: GcPartitionId)
        ensures
            r == self@.xref,
    {
        GcPartitionId((self.partition >> 16) as u16)
    }

    /// Offset of the payload from the header, by the table of payload types.
    pub fn payload(&self, registry: &GcTypeRegistry) -> (r: usize)
        requires
            self@.dtype < registry@.infos.len(),
        ensures
            r == registry@.infos[self@.dtype as int].payload_offset,
    {
        registry.info(self.dtype()).payload_offset
    }

    /// Records a cross reference to `xref` and returns true, unless `xref` is zero or the
    /// node's own partition: then the record is cleared and false comes back.
    pub fn set_xref(&mut self, xref: GcPartitionId) -> (r: bool)
        requires
            old(self).wf(),
        ensures
            final(self).wf(),
            r == (xref.0 != 0 && xref != old(self)@.partition),
            final(self)@ == (HeadView {
                xref: if r {
                    xref
                } else {
                    GcPartitionId(0)
                },
                ..old(self)@
            }),
    {
        proof {
            lemma_partition_bits(self.partition, xref.0);
        }
        if xref.0 != 0 && xref != self.partition_id() {
            self.partition = (self.partition & 0xFFFFu32) | ((xref.0 as u32) << 16);
            true
        } else {
            self.partition = self.partition & 0xFFFFu32;
            false
        }
    }

    /// Clears the cross reference.
    #[inline(always)]
    pub fn unset_xref(&mut self)
        requires
            old(self).wf(),
        ensures
            final(self).wf(),
            final(self)@ == (HeadView { xref: GcPartitionId(0), ..old(self)@ }),
    {
        self.set_xref(GcPartitionId(0));
    }

    /// The weak reference id given to the node; null if it has none.
    #[inline(always)]
    pub fn weak_id(&self) -> (r: GcWeakRawId)
        ensures
            r == self@.weak,
    {
        self.weak_id
    }

    /// Replaces the weak reference id.
    #[inline(always)]
    pub fn set_weak_id(&mut self, id: GcWeakRawId)
        requires
            old(self).wf(),
        ensures
            final(self).wf(),
            final(self)@ == (HeadView { weak: id, ..old(self)@ }),
    {
        self.weak_id = id;
    }

    /// Attaches a text to the node, for diagnostics.
    pub fn debug_set_dbg_string(&mut self, text: String)
        requires
            old(self).wf(),
        ensures
            final(self).wf(),
            final(self)@ == (HeadView { dbg: text@, ..old(self)@ }),
    {
        self.dbg_string = text;
    }

    /// The text attached for diagnostics.
    pub fn debug_dbg_string(&self) -> (r: &String)
        ensures
            r@ == self@.dbg,
    {
        &self.dbg_string
    }
}

} // verus!
