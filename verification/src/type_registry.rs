//! A table of payload types that grows while a program runs.

use std::collections::HashMap;

use vstd::layout::size_of;
use vstd::prelude::*;

verus! {

/// What the table knows of one payload type.
#[derive(Debug, Copy, Clone)]
pub struct GcTypeInfo {
    /// Size of the payload.
    pub size: u32,
    /// Dropping a payload of this type runs code.
    pub needs_drop: bool,
    /// Nodes of types with a lower pass are disposed of first.
    pub drop_pass: u8,
    /// The key under which the type was registered.
    pub type_id: u64,
}

/// Largest number of entries, the unused first one included.
pub const MAX_TYPES: usize = 255;

/// Number of drop passes.
pub const PASSES: u8 = 4;

/// A type is registered under the key.
pub open spec fn registered(types: Seq<GcTypeInfo>, type_id: u64) -> bool {
    exists|i: int| 1 <= i < types.len() && (#[trigger] types[i]).type_id == type_id
}

/// Some registered type has the drop pass.
pub open spec fn pass_used(types: Seq<GcTypeInfo>, pass: u8) -> bool {
    exists|i: int| 1 <= i < types.len() && (#[trigger] types[i]).drop_pass == pass
}

/// The passes below `n` that registered types have, in ascending order.
pub open spec fn passes_below(types: Seq<GcTypeInfo>, n: u8) -> Seq<u8>
    decreases n,
{
    if n == 0 {
        Seq::empty()
    } else {
        let rest = passes_below(types, (n - 1) as u8);
        if pass_used(types, (n - 1) as u8) {
            rest.push((n - 1) as u8)
        } else {
            rest
        }
    }
}

/// Table of payload types by key. The id of a type is its position; position zero is not used.
pub struct TypeRegistry {
    types: Vec<GcTypeInfo>,
    type_to_idx: HashMap<u64, u8>,
    drop_passes: Vec<u8>,
}

impl View for TypeRegistry {
    type V = Seq<GcTypeInfo>;

    closed spec fn view(&self) -> Seq<GcTypeInfo> {
        self.types@
    }
}

impl TypeRegistry {
    /// The index names every registered type, by its position.
    closed spec fn indexed(&self) -> bool {
        &&& 1 <= self.types@.len() <= MAX_TYPES
        &&& forall|i: int|
            1 <= i < self.types@.len() ==> self.type_to_idx@.dom().contains(
                (#[trigger] self.types@[i]).type_id,
            ) && self.type_to_idx@[self.types@[i].type_id] == i
        &&& forall|k: u64| #[trigger]
            self.type_to_idx@.dom().contains(k) ==> 1 <= self.type_to_idx@[k] < self.types@.len()
                && self.types@[self.type_to_idx@[k] as int].type_id == k
        &&& forall|i: int| 0 <= i < self.types@.len() ==> (#[trigger] self.types@[i]).drop_pass < PASSES
    }

    /// The listed drop passes.
    pub closed spec fn listed(&self) -> Seq<u8> {
        self.drop_passes@
    }

    /// No two types have the same key, all drop passes are in range, and the listed passes are
    /// those in use.
    pub closed spec fn wf(&self) -> bool {
        &&& self.indexed()
        &&& self.drop_passes@ == passes_below(self.types@, PASSES)
    }

    /// A table without any type.
    pub fn new() -> (r: Self)
        ensures
            r.wf(),
            r@ == seq![GcTypeInfo { size: 0, needs_drop: false, drop_pass: 0, type_id: 0 }],
    {
        broadcast use vstd::std_specs::hash::group_hash_axioms;

        let mut types: Vec<GcTypeInfo> = Vec::with_capacity(8);
        types.push(GcTypeInfo { size: 0, needs_drop: false, drop_pass: 0, type_id: 0 });
        let r = TypeRegistry {
            types,
            type_to_idx: HashMap::with_capacity(8),
            drop_passes: Vec::new(),
        };
        proof {
            reveal_with_fuel(passes_below, 5);
            assert(r@ =~= seq![
                GcTypeInfo { size: 0, needs_drop: false, drop_pass: 0, type_id: 0 },
            ]);
        }
        r
    }

    /// Number of entries, the unused first one included.
    pub fn len(&self) -> (r: usize)
        ensures
            r == self@.len(),
    {
        self.types.len()
    }

    /// The id of the type with the given key, if it is registered.
    #[inline(always)]
    pub fn gc_dtype_id(&self, type_id: u64) -> (r: Option<u8>)
        requires
            self.wf(),
        ensures
            r is Some <==> registered(self@, type_id),
            r matches Some(i) ==> 1 <= i <= 254 && i < self@.len() && self@[i as int].type_id
                == type_id,
    {
        broadcast use vstd::std_specs::hash::group_hash_axioms;

        match self.type_to_idx.get(&type_id) {
            Some(i) => Some(*i),
            None => None,
        }
    }

    /// Registers payload type `T` under a key and returns its id. A type that is registered
    /// already keeps its entry. The drop pass of a type counts only if dropping it runs code.
    pub fn register<T>(&mut self, type_id: u64, needs_drop: bool, drop_pass: u8) -> (r: u8)
        requires
            old(self).wf(),
            drop_pass < PASSES,
            registered(old(self)@, type_id) || old(self)@.len() < MAX_TYPES,
        ensures
            final(self).wf(),
            1 <= r <= 254,
            r < final(self)@.len(),
            final(self)@[r as int].type_id == type_id,
            registered(old(self)@, type_id) ==> final(self)@ == old(self)@,
            !registered(old(self)@, type_id) ==> {
                &&& r == old(self)@.len()
                &&& final(self)@ == old(self)@.push(
                    GcTypeInfo {
                        size: (size_of::<T>() as usize) as u32,
                        needs_drop,
                        drop_pass: if needs_drop {
                            drop_pass
                        } else {
                            0
                        },
                        type_id,
                    },
                )
            },
    {
        broadcast use vstd::std_specs::hash::group_hash_axioms;

        match self.gc_dtype_id(type_id) {
            Some(i) => i,
            None => {
                let idx: u8 = self.types.len() as u8;
                let pass: u8 = if needs_drop {
                    drop_pass
                } else {
                    0
                };
                self.types.push(
                    GcTypeInfo {
                        size: std::mem::size_of::<T>() as u32,
                        needs_drop,
                        drop_pass: pass,
                        type_id,
                    },
                );
                self.type_to_idx.insert(type_id, idx);
                self.update_drop_passes();
                idx
            },
        }
    }

    /// Gives a type another drop pass; a type that is not registered yet is registered with it.
    pub fn set_drop_pass<T>(&mut self, type_id: u64, needs_drop: bool, pass: u8)
        requires
            old(self).wf(),
            pass < PASSES,
            registered(old(self)@, type_id) || old(self)@.len() < MAX_TYPES,
        ensures
            final(self).wf(),
            registered(old(self)@, type_id) ==> {
                &&& final(self)@.len() == old(self)@.len()
                &&& forall|i: int|
                    0 <= i < old(self)@.len() ==> #[trigger] final(self)@[i] == (if i >= 1 && old(
                        self,
                    )@[i].type_id == type_id {
                        GcTypeInfo { drop_pass: pass, ..old(self)@[i] }
                    } else {
                        old(self)@[i]
                    })
            },
            !registered(old(self)@, type_id) ==> final(self)@ == old(self)@.push(
                GcTypeInfo {
                    size: (size_of::<T>() as usize) as u32,
                    needs_drop,
                    drop_pass: if needs_drop {
                        pass
                    } else {
                        0
                    },
                    type_id,
                },
            ),
    {
        match self.gc_dtype_id(type_id) {
            Some(t) => {
                let info: GcTypeInfo = self.types[t as usize];
                self.types[t as usize] = GcTypeInfo { drop_pass: pass, ..info };
                self.update_drop_passes();
            },
            None => {
                self.register::<T>(type_id, needs_drop, pass);
            },
        }
    }

    /// Lists the drop passes of the registered types anew.
    fn update_drop_passes(&mut self)
        requires
            old(self).indexed(),
        ensures
            final(self).wf(),
            final(self)@ == old(self)@,
            final(self).type_to_idx@ == old(self).type_to_idx@,
            final(self).listed() == passes_below(old(self)@, PASSES),
            forall|p: u8| #[trigger] final(self).listed().contains(p) <==> pass_used(old(self)@, p),
            forall|i: int, j: int|
                0 <= i < j < final(self).listed().len() ==> #[trigger] final(self).listed()[i]
                    < #[trigger] final(self).listed()[j],
            final(self).listed().len() <= PASSES,
            old(self)@.len() == 1 ==> final(self).listed().len() == 0,
    {
        let mut passes: Vec<u8> = Vec::new();
        let mut pass: u8 = 0;
        while pass < PASSES
            invariant
                pass <= PASSES,
                passes@ == passes_below(self.types@, pass),
                *self == *old(self),
            decreases PASSES - pass,
        {
            let mut used: bool = false;
            let mut i: usize = 1;
            while i < self.types.len() && !used
                invariant
                    1 <= i,
                    used ==> pass_used(self.types@, pass),
                    !used ==> forall|j: int|
                        1 <= j < i && j < self.types@.len() ==> (#[trigger] self.types@[j]).drop_pass
                            != pass,
                decreases self.types@.len() - i,
            {
                if self.types[i].drop_pass == pass {
                    used = true;
                }
                i = i + 1;
            }
            if used {
                passes.push(pass);
            }
            pass = pass + 1;
        }
        self.drop_passes = passes;
        proof {
            law_passes(*self);
        }
    }

    /// The id of the type with the given key, if it is registered.
    #[inline(always)]
    pub fn type_id_of(&self, type_id: u64) -> (r: Option<u8>)
        requires
            self.wf(),
        ensures
            r is Some <==> registered(self@, type_id),
            r matches Some(i) ==> 1 <= i < self@.len() && self@[i as int].type_id == type_id,
    {
        self.gc_dtype_id(type_id)
    }

    /// Gives a type another drop pass; a type that is not registered yet is registered with it.
    pub fn set_gc_type_drop_pass<T>(&mut self, type_id: u64, needs_drop: bool, pass: u8)
        requires
            old(self).wf(),
            pass < PASSES,
            registered(old(self)@, type_id) || old(self)@.len() < MAX_TYPES,
        ensures
            final(self).wf(),
            registered(old(self)@, type_id) ==> {
                &&& final(self)@.len() == old(self)@.len()
                &&& forall|i: int|
                    0 <= i < old(self)@.len() ==> #[trigger] final(self)@[i] == (if i >= 1 && old(
                        self,
                    )@[i].type_id == type_id {
                        GcTypeInfo { drop_pass: pass, ..old(self)@[i] }
                    } else {
                        old(self)@[i]
                    })
            },
            !registered(old(self)@, type_id) ==> final(self)@ == old(self)@.push(
                GcTypeInfo {
                    size: (size_of::<T>() as usize) as u32,
                    needs_drop,
                    drop_pass: if needs_drop {
                        pass
                    } else {
                        0
                    },
                    type_id,
                },
            ),
    {
        self.set_drop_pass::<T>(type_id, needs_drop, pass);
    }

    /// The entry of a type.
    pub fn node_type(&self, dtype: u8) -> (r: &GcTypeInfo)
        requires
            dtype < self@.len(),
        ensures
            *r == self@[dtype as int],
    {
        &self.types[dtype as usize]
    }

    /// The drop passes of the registered types, in ascending order.
    pub fn gc_type_drop_passes(&self) -> (r: Vec<u8>)
        requires
            self.wf(),
        ensures
            r@ == self.listed(),
            r@ == passes_below(self@, PASSES),
    {
        let mut out: Vec<u8> = Vec::new();
        let mut i: usize = 0;
        while i < self.drop_passes.len()
            invariant
                i <= self.drop_passes@.len(),
                out@ == self.drop_passes@.take(i as int),
            decreases self.drop_passes@.len() - i,
        {
            out.push(self.drop_passes[i]);
            proof {
                assert(self.drop_passes@.take(i + 1) =~= self.drop_passes@.take(i as int).push(
                    self.drop_passes@[i as int],
                ));
            }
            i = i + 1;
        }
        assert(out@ =~= self.drop_passes@);
        out
    }
}

/// No two types are registered under the same key, so that a key has one id.
pub proof fn law_keys_distinct(table: TypeRegistry, i: int, j: int)
    requires
        table.wf(),
        1 <= i < table@.len(),
        1 <= j < table@.len(),
        table@[i].type_id == table@[j].type_id,
    ensures
        i == j,
{
}

/// Ids are one to 254, whatever was registered.
pub proof fn law_ids_bounded(table: TypeRegistry, type_id: u64)
    requires
        table.wf(),
    ensures
        1 <= table@.len() <= MAX_TYPES,
        registered(table@, type_id) ==> exists|i: int|
            1 <= i <= 254 && i < table@.len() && (#[trigger] table@[i]).type_id == type_id,
        forall|i: int| 0 <= i < table@.len() ==> (#[trigger] table@[i]).drop_pass < PASSES,
{
}

/// A key is registered exactly if an entry behind the unused first one has it.
pub proof fn law_registered(types: Seq<GcTypeInfo>, type_id: u64)
    ensures
        registered(types, type_id) <==> exists|i: int|
            1 <= i < types.len() && (#[trigger] types[i]).type_id == type_id,
{
}

/// Nothing is registered in a new table.
pub proof fn law_new_empty(types: Seq<GcTypeInfo>, type_id: u64)
    requires
        types.len() == 1,
    ensures
        !registered(types, type_id),
        passes_below(types, PASSES) == Seq::<u8>::empty(),
{
    reveal_with_fuel(passes_below, 5);
}

/// The listed drop passes of a table: strictly increasing, exactly those that registered types
/// have, at most as many as there are passes, and none when nothing is registered.
pub proof fn law_passes(table: TypeRegistry)
    requires
        table.wf(),
    ensures
        forall|p: u8| #[trigger]
            table.listed().contains(p) <==> exists|k: int|
                1 <= k < table@.len() && (#[trigger] table@[k]).drop_pass == p,
        forall|i: int, j: int|
            0 <= i < j < table.listed().len() ==> #[trigger] table.listed()[i]
                < #[trigger] table.listed()[j],
        table.listed().len() <= PASSES,
        table@.len() == 1 ==> table.listed().len() == 0,
{
    law_passes_listed(table@, PASSES);
    if table@.len() == 1 {
        law_new_empty(table@, 0);
    }
    assert forall|p: u8| #[trigger] table.listed().contains(p) <==> pass_used(table@, p) by {
        assert(passes_below(table@, PASSES).contains(p) <==> p < PASSES && pass_used(table@, p));
        if pass_used(table@, p) {
            let i = choose|i: int| 1 <= i < table@.len() && (#[trigger] table@[i]).drop_pass == p;
            assert(table@[i].drop_pass < PASSES);
        }
    }
}

/// The listed passes are exactly those in use, in ascending order, and so there are at most as
/// many as there are passes.
pub proof fn law_passes_listed(types: Seq<GcTypeInfo>, n: u8)
    ensures
        forall|p: u8| #[trigger]
            passes_below(types, n).contains(p) <==> p < n && pass_used(types, p),
        forall|i: int, j: int|
            0 <= i < j < passes_below(types, n).len() ==> #[trigger] passes_below(types, n)[i]
                < #[trigger] passes_below(types, n)[j],
        passes_below(types, n).len() <= n,
    decreases n,
{
    let all = passes_below(types, n);
    if n > 0 {
        let m = (n - 1) as u8;
        law_passes_listed(types, m);
        let rest = passes_below(types, m);
        crate::lemmas::lemma_push_members(rest, m);
        assert forall|i: int| 0 <= i < rest.len() implies #[trigger] rest[i] < m by {
            assert(rest.contains(rest[i]));
        }
        assert forall|p: u8| #[trigger] all.contains(p) <==> p < n && pass_used(types, p) by {
            assert(rest.contains(p) <==> p < m && pass_used(types, p));
        }
        assert forall|i: int, j: int| 0 <= i < j < all.len() implies #[trigger] all[i]
            < #[trigger] all[j] by {
            assert(i < rest.len() && all[i] == rest[i]);
            if j < rest.len() {
                assert(all[j] == rest[j]);
            }
        }
    }
}

} // verus!
