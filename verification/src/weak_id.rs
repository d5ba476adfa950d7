//! Identifiers of weak reference slots.

use vstd::prelude::*;

verus! {

/// Names one use of one weak slot: the slot's index in the upper half and the version it had
/// when it was handed out in the lower half. Version zero is never handed out.
#[derive(Debug, Clone, Copy, PartialEq, Eq, Structural)]
pub struct GcWeakRawId {
    id: u32,
}

impl GcWeakRawId {
    /// The slot index that the id carries.
    pub closed spec fn spec_index(self) -> u16 {
        (self.id >> 16) as u16
    }

    /// The slot version that the id carries.
    pub closed spec fn spec_version(self) -> u16 {
        (self.id & 0xFFFF) as u16
    }

    /// The id that names no slot.
    pub closed spec fn spec_null() -> GcWeakRawId {
        GcWeakRawId { id: 0 }
    }

    /// The null id carries index zero and version zero.
    pub proof fn lemma_null()
        ensures
            GcWeakRawId::spec_null().spec_index() == 0,
            GcWeakRawId::spec_null().spec_version() == 0,
    {
        assert((0u32 >> 16) as u16 == 0 && (0u32 & 0xFFFF) as u16 == 0) by (bit_vector);
    }

    /// Ids are determined by the index and the version they carry.
    pub proof fn law_id_parts(a: GcWeakRawId, b: GcWeakRawId)
        requires
            a.spec_index() == b.spec_index(),
            a.spec_version() == b.spec_version(),
        ensures
            a == b,
    {
        let x = a.id;
        let y = b.id;
        assert(x == y) by (bit_vector)
            requires
                (x >> 16) as u16 == (y >> 16) as u16,
                (x & 0xFFFF) as u16 == (y & 0xFFFF) as u16,
        ;
    }

    /// Packs an index and a version.
    pub fn new(index: u16, version: u16) -> (r: Self)
        ensures
            r.spec_index() == index,
            r.spec_version() == version,
    {
        let id: u32 = ((index as u32) << 16) | (version as u32);
        assert((((index as u32) << 16) | (version as u32)) >> 16 == index as u32
            && ((((index as u32) << 16) | (version as u32)) & 0xFFFF) == version as u32)
            by (bit_vector);
        GcWeakRawId { id }
    }

    /// The id that names no slot.
    pub fn null() -> (r: Self)
        ensures
            r == GcWeakRawId::spec_null(),
            r.spec_index() == 0,
            r.spec_version() == 0,
    {
        proof {
            GcWeakRawId::lemma_null();
        }
        GcWeakRawId { id: 0 }
    }

    /// Index of the slot.
    #[inline(always)]
    pub fn index(&self) -> (r: u16)
        ensures
            r == self.spec_index(),
    {
        (self.id >> 16) as u16
    }

    /// Version of the slot at the time the id was made.
    #[inline(always)]
    pub fn version(&self) -> (r: u16)
        ensures
            r == self.spec_version(),
    {
        (self.id & 0xFFFF) as u16
    }

    /// True for an id that names no slot.
    #[inline(always)]
    pub fn is_null(&self) -> (r: bool)
        ensures
            r == (self.spec_version() == 0),
    {
        self.version() == 0
    }
}

} // verus!
